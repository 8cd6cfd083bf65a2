//! What a whole measurement amounts to, whatever order the replies come in.

#![allow(unused_imports)]

use vstd::prelude::*;

use crate::jitter::{held, in_number_order, insert_by_no, output, released, JITTER_CAPACITY};
use crate::receiver::{packet_of, readable, time_under_way, ReceiverState, Wakeup};
use crate::sender::SenderState;
use crate::stats::{Packet, Summary, Tally};
use crate::timespan::TimeSpan;
use crate::{jitter, receiver, sender, stats, timespan, wire};

verus! {

/// A datagram that comes back as it was sent is counted under its own number,
/// with the time from its sending to its return.
pub proof fn law_echo_is_measured(datagram: Seq<u8>, at: TimeSpan, no: u32, now: TimeSpan)
    requires
        datagram.len() >= wire::HEADER_LEN,
        at.wf(),
        now.wf(),
        at.total_nanos() <= now.total_nanos(),
    ensures
        readable(wire::numbered(wire::stamped(datagram, at), no)),
        packet_of(wire::numbered(wire::stamped(datagram, at), no), now).no == no,
        packet_of(wire::numbered(wire::stamped(datagram, at), no), now).rtt4.total_nanos()
            == now.total_nanos() - at.total_nanos(),
{
    wire::law_header_read_of_write(datagram, at, no);
    timespan::law_span_of_nanos(now.total_nanos() - at.total_nanos(), at);
}

/// The figures of a measurement are those of its packets in the order in which
/// they leave the jitter buffer.
pub proof fn law_counted_in_output_order(deadline: TimeSpan, arrivals: Seq<Packet>)
    ensures
        ReceiverState::fresh(deadline).take_all(arrivals).held == held(arrivals),
        ReceiverState::fresh(deadline).take_all(arrivals).tally == Tally::empty().analyse_all(
            released(arrivals),
        ),
        ReceiverState::fresh(deadline).take_all(arrivals).drained() == Tally::empty().analyse_all(
            output(arrivals),
        ),
    decreases arrivals.len(),
{
    if arrivals.len() > 0 {
        let earlier = arrivals.drop_last();
        law_counted_in_output_order(deadline, earlier);
        stats::law_analyse_in_pieces(
            Tally::empty(),
            released(earlier),
            jitter::released_by(held(earlier), arrivals.last()),
        );
    }
    stats::law_analyse_in_pieces(Tally::empty(), released(arrivals), held(arrivals));
}

proof fn lemma_held_in_order(arrivals: Seq<Packet>)
    ensures
        in_number_order(held(arrivals)),
        held(arrivals).len() == if arrivals.len() < JITTER_CAPACITY {
            arrivals.len() as int
        } else {
            JITTER_CAPACITY as int
        },
        arrivals.len() <= JITTER_CAPACITY ==> released(arrivals).len() == 0,
    decreases arrivals.len(),
{
    if arrivals.len() > 0 {
        let earlier = arrivals.drop_last();
        lemma_held_in_order(earlier);
        jitter::law_insert_keeps_order(held(earlier), arrivals.last());
    }
}

/// The output of one more arrival is the old one with the packet put in among
/// those that were held back.
proof fn lemma_output_step(arrivals: Seq<Packet>)
    requires
        arrivals.len() > 0,
    ensures
        output(arrivals) == released(arrivals.drop_last()) + insert_by_no(
            held(arrivals.drop_last()),
            arrivals.last(),
        ),
{
    let earlier = arrivals.drop_last();
    lemma_held_in_order(earlier);
    jitter::law_insert_keeps_order(held(earlier), arrivals.last());
    let gone = released(earlier);
    let all = insert_by_no(held(earlier), arrivals.last());
    if all.len() > JITTER_CAPACITY {
        assert((gone + all.take(1)) + all.skip(1) =~= gone + all);
    } else {
        assert((gone + Seq::<Packet>::empty()) + all =~= gone + all);
    }
}

/// The jitter buffer neither loses nor invents a packet.
pub proof fn law_output_is_permutation(arrivals: Seq<Packet>)
    ensures
        output(arrivals).to_multiset() == arrivals.to_multiset(),
        output(arrivals).len() == arrivals.len(),
    decreases arrivals.len(),
{
    broadcast use vstd::seq_lib::group_to_multiset_ensures;

    if arrivals.len() == 0 {
        assert(output(arrivals) =~= arrivals);
    } else {
        let earlier = arrivals.drop_last();
        let p = arrivals.last();
        law_output_is_permutation(earlier);
        lemma_output_step(arrivals);
        lemma_held_in_order(earlier);
        jitter::law_insert_keeps_order(held(earlier), p);
        let all = insert_by_no(held(earlier), p);
        vstd::seq_lib::lemma_multiset_commutative(released(earlier), all);
        vstd::seq_lib::lemma_multiset_commutative(released(earlier), held(earlier));
        assert(arrivals =~= earlier.push(p));
        assert(output(arrivals).to_multiset() =~= arrivals.to_multiset());
        assert(output(arrivals).len() == output(arrivals).to_multiset().len());
    }
}

proof fn lemma_tally_of_all(packets: Seq<Packet>)
    ensures
        Tally::empty().analyse_all(packets).wf(),
        Tally::empty().analyse_all(packets).handled() == packets.len(),
    decreases packets.len(),
{
    if packets.len() > 0 {
        lemma_tally_of_all(packets.drop_last());
        stats::law_tally_stays_wf(
            Tally::empty().analyse_all(packets.drop_last()),
            packets.last(),
        );
    }
}

/// In the end every packet that came back is either counted or a duplicate,
/// and every counted one is in exactly one bracket.
pub proof fn law_every_packet_is_accounted_for(deadline: TimeSpan, arrivals: Seq<Packet>)
    ensures
        ({
            let tally = ReceiverState::fresh(deadline).take_all(arrivals).drained();
            &&& tally.ctr + tally.dup == arrivals.len()
            &&& tally.bracket_sum() == tally.ctr
            &&& 0 <= tally.ctr
            &&& 0 <= tally.dup
        }),
{
    law_counted_in_output_order(deadline, arrivals);
    law_output_is_permutation(arrivals);
    lemma_tally_of_all(output(arrivals));
}

/// How many of `packets` have a number higher than `no`.
pub open spec fn higher(packets: Seq<Packet>, no: u32) -> nat
    decreases packets.len(),
{
    if packets.len() == 0 {
        0
    } else {
        higher(packets.drop_last(), no) + if packets.last().no > no {
            1nat
        } else {
            0
        }
    }
}

/// No packet arrives after more than 1022 packets with higher numbers.
pub open spec fn few_overtakings(arrivals: Seq<Packet>) -> bool {
    forall|j: int|
        0 <= j < arrivals.len() ==> higher(#[trigger] arrivals.take(j), arrivals[j].no) <= 1022
}

proof fn lemma_higher_of_pieces(a: Seq<Packet>, b: Seq<Packet>, no: u32)
    ensures
        higher(a + b, no) == higher(a, no) + higher(b, no),
    decreases b.len(),
{
    if b.len() == 0 {
        assert(a + b =~= a);
    } else {
        assert((a + b).drop_last() =~= a + b.drop_last());
        lemma_higher_of_pieces(a, b.drop_last(), no);
    }
}

proof fn lemma_higher_of_inserted(packets: Seq<Packet>, p: Packet, no: u32)
    ensures
        higher(insert_by_no(packets, p), no) == higher(packets.push(p), no),
    decreases packets.len(),
{
    reveal_with_fuel(higher, 2);
    assert(packets.push(p).drop_last() =~= packets);
    if packets.len() > 0 && packets.last().no > p.no {
        let shorter = packets.drop_last();
        lemma_higher_of_inserted(shorter, p, no);
        assert(insert_by_no(packets, p).drop_last() =~= insert_by_no(shorter, p));
        assert(shorter.push(p).drop_last() =~= shorter);
    }
}

proof fn lemma_higher_of_output(arrivals: Seq<Packet>, no: u32)
    ensures
        higher(output(arrivals), no) == higher(arrivals, no),
    decreases arrivals.len(),
{
    if arrivals.len() == 0 {
        assert(output(arrivals) =~= arrivals);
    } else {
        let earlier = arrivals.drop_last();
        let p = arrivals.last();
        lemma_higher_of_output(earlier, no);
        lemma_output_step(arrivals);
        lemma_higher_of_pieces(released(earlier), insert_by_no(held(earlier), p), no);
        lemma_higher_of_pieces(released(earlier), held(earlier), no);
        lemma_higher_of_inserted(held(earlier), p, no);
        assert(held(earlier).push(p).drop_last() =~= held(earlier));
    }
}

proof fn lemma_all_higher(packets: Seq<Packet>, no: u32)
    requires
        forall|i: int| 0 <= i < packets.len() ==> (#[trigger] packets[i]).no > no,
    ensures
        higher(packets, no) == packets.len(),
    decreases packets.len(),
{
    if packets.len() > 0 {
        let shorter = packets.drop_last();
        assert forall|i: int| 0 <= i < shorter.len() implies (#[trigger] shorter[i]).no > no by {
            assert(shorter[i] == packets[i]);
        }
        lemma_all_higher(shorter, no);
    }
}

/// Packets leave the jitter buffer in the order of their numbers, as long as
/// none arrives after too many with higher numbers.
pub proof fn law_output_in_order(arrivals: Seq<Packet>)
    requires
        few_overtakings(arrivals),
    ensures
        in_number_order(output(arrivals)),
    decreases arrivals.len(),
{
    if arrivals.len() > 0 {
        let earlier = arrivals.drop_last();
        let p = arrivals.last();
        assert forall|j: int| 0 <= j < earlier.len() implies higher(
            #[trigger] earlier.take(j),
            earlier[j].no,
        ) <= 1022 by {
            assert(earlier.take(j) =~= arrivals.take(j));
        }
        law_output_in_order(earlier);
        lemma_output_step(arrivals);
        lemma_held_in_order(earlier);
        let gone = released(earlier);
        let kept = held(earlier);
        let all = insert_by_no(kept, p);
        jitter::law_insert_keeps_order(kept, p);
        if gone.len() > 0 {
            let before = output(earlier);
            if gone.last().no > p.no {
                let tail = before.skip(gone.len() - 1);
                assert(before =~= gone.drop_last() + tail);
                assert forall|i: int| 0 <= i < tail.len() implies (#[trigger] tail[i]).no
                    > p.no by {
                    assert(tail[i] == before[gone.len() - 1 + i]);
                    assert(before[gone.len() - 1] == gone.last());
                }
                lemma_all_higher(tail, p.no);
                lemma_higher_of_pieces(gone.drop_last(), tail, p.no);
                lemma_higher_of_output(earlier, p.no);
                assert(earlier =~= arrivals.take(arrivals.len() - 1));
                assert(false);
            }
            assert forall|i: int, k: int| 0 <= i < gone.len() && 0 <= k < all.len() implies (
            #[trigger] gone[i]).no <= (#[trigger] all[k]).no by {
                lemma_inserted_is_old_or_new(kept, p, k);
                assert(before[i] == gone[i]);
                assert(before[gone.len() - 1] == gone.last());
                if all[k] != p {
                    let m = choose|m: int| 0 <= m < kept.len() && kept[m] == all[k];
                    assert(before[gone.len() + m] == kept[m]);
                }
            }
        }
        let after = output(arrivals);
        assert forall|i: int, j: int| 0 <= i <= j < after.len() implies (#[trigger] after[i]).no
            <= (#[trigger] after[j]).no by {
            if j < gone.len() {
                assert(output(earlier)[i] == gone[i] && output(earlier)[j] == gone[j]);
            } else if i >= gone.len() {
                assert(all[i - gone.len()].no <= all[j - gone.len()].no);
            } else {
                assert(gone[i].no <= all[j - gone.len()].no);
            }
        }
    }
}

proof fn lemma_inserted_is_old_or_new(packets: Seq<Packet>, p: Packet, k: int)
    requires
        0 <= k < insert_by_no(packets, p).len(),
    ensures
        insert_by_no(packets, p)[k] == p || exists|m: int|
            0 <= m < packets.len() && packets[m] == insert_by_no(packets, p)[k],
    decreases packets.len(),
{
    let all = insert_by_no(packets, p);
    if packets.len() > 0 && packets.last().no > p.no {
        let shorter = packets.drop_last();
        if k == all.len() - 1 {
            assert(packets[packets.len() - 1] == all[k]);
        } else {
            lemma_inserted_is_old_or_new(shorter, p, k);
            if all[k] != p {
                let m = choose|m: int| 0 <= m < shorter.len() && shorter[m] == all[k];
                assert(packets[m] == all[k]);
            }
        }
    } else if k < packets.len() {
        assert(packets[k] == all[k]);
    }
}

/// Those of `packets` that have the number `no`, in the same order.
pub open spec fn with_number(packets: Seq<Packet>, no: u32) -> Seq<Packet>
    decreases packets.len(),
{
    if packets.len() == 0 {
        Seq::empty()
    } else if packets.last().no == no {
        with_number(packets.drop_last(), no).push(packets.last())
    } else {
        with_number(packets.drop_last(), no)
    }
}

proof fn lemma_with_number_of_pieces(a: Seq<Packet>, b: Seq<Packet>, no: u32)
    ensures
        with_number(a + b, no) == with_number(a, no) + with_number(b, no),
    decreases b.len(),
{
    if b.len() == 0 {
        assert(a + b =~= a);
        assert(with_number(a, no) + with_number(b, no) =~= with_number(a, no));
    } else {
        assert((a + b).drop_last() =~= a + b.drop_last());
        lemma_with_number_of_pieces(a, b.drop_last(), no);
        assert(with_number(a + b, no) =~= with_number(a, no) + with_number(b, no));
    }
}

proof fn lemma_with_number_of_inserted(packets: Seq<Packet>, p: Packet, no: u32)
    ensures
        with_number(insert_by_no(packets, p), no) == with_number(packets.push(p), no),
    decreases packets.len(),
{
    reveal_with_fuel(with_number, 2);
    assert(packets.push(p).drop_last() =~= packets);
    if packets.len() > 0 && packets.last().no > p.no {
        let shorter = packets.drop_last();
        lemma_with_number_of_inserted(shorter, p, no);
        assert(insert_by_no(packets, p).drop_last() =~= insert_by_no(shorter, p));
        assert(shorter.push(p).drop_last() =~= shorter);
    }
}

/// Packets with the same number leave the jitter buffer in the order in which
/// they arrived.
pub proof fn law_copies_keep_their_order(arrivals: Seq<Packet>, no: u32)
    ensures
        with_number(output(arrivals), no) == with_number(arrivals, no),
    decreases arrivals.len(),
{
    if arrivals.len() == 0 {
        assert(output(arrivals) =~= arrivals);
    } else {
        let earlier = arrivals.drop_last();
        let p = arrivals.last();
        law_copies_keep_their_order(earlier, no);
        lemma_output_step(arrivals);
        lemma_with_number_of_pieces(released(earlier), insert_by_no(held(earlier), p), no);
        lemma_with_number_of_pieces(released(earlier), held(earlier), no);
        lemma_with_number_of_inserted(held(earlier), p, no);
        assert(held(earlier).push(p).drop_last() =~= held(earlier));
        assert(with_number(output(arrivals), no) =~= with_number(arrivals, no));
    }
}

/// The numbers of `packets`.
pub open spec fn numbers(packets: Seq<Packet>) -> Set<u32> {
    Set::new(|n: u32| exists|i: int| 0 <= i < packets.len() && #[trigger] packets[i].no == n)
}

/// The figures of packets that come in the order of their numbers.
proof fn lemma_tally_in_order(packets: Seq<Packet>)
    requires
        in_number_order(packets),
        packets.len() > 0,
        packets[0].no != u32::MAX,
    ensures
        ({
            let tally = Tally::empty().analyse_all(packets);
            &&& tally.min_n == packets[0].no
            &&& tally.max_n == packets.last().no
            &&& tally.prevn == packets.last().no
            &&& numbers(packets).finite()
            &&& tally.ctr == numbers(packets).len()
            &&& 1 <= tally.ctr <= tally.window()
            &&& 0 <= tally.badloss < tally.window()
            &&& (forall|n: int|
                tally.min_n <= n <= tally.max_n ==> #[trigger] numbers(packets).contains(n as u32))
                ==> tally.ctr == tally.window() && tally.badloss == 0
        }),
    decreases packets.len(),
{
    let tally = Tally::empty().analyse_all(packets);
    let shorter = packets.drop_last();
    let p = packets.last();
    if packets.len() == 1 {
        reveal_with_fuel(Tally::analyse_all, 2);
        assert(packets[0].no == p.no);
        assert(numbers(packets) =~= Set::empty().insert(p.no));
    } else {
        assert forall|i: int, j: int| 0 <= i <= j < shorter.len() implies (#[trigger] shorter[i]).no
            <= (#[trigger] shorter[j]).no by {
            assert(shorter[i] == packets[i] && shorter[j] == packets[j]);
        }
        lemma_tally_in_order(shorter);
        let before = Tally::empty().analyse_all(shorter);
        let q = shorter.last();
        assert(packets[packets.len() - 2] == q);
        assert(q.no <= p.no);
        assert forall|n: u32| numbers(packets).contains(n) implies #[trigger] numbers(
            shorter,
        ).insert(p.no).contains(n) by {
            let i = choose|i: int| 0 <= i < packets.len() && #[trigger] packets[i].no == n;
            if i < shorter.len() {
                assert(shorter[i].no == n);
            }
        }
        assert forall|n: u32| #[trigger] numbers(shorter).insert(p.no).contains(n) implies numbers(
            packets,
        ).contains(n) by {
            if n == p.no {
                assert(packets[packets.len() - 1].no == n);
            } else {
                let i = choose|i: int| 0 <= i < shorter.len() && #[trigger] shorter[i].no == n;
                assert(packets[i].no == n);
            }
        }
        assert(numbers(packets) =~= numbers(shorter).insert(p.no));
        if p.no == q.no {
            assert(shorter[shorter.len() - 1].no == p.no);
            assert(numbers(packets) =~= numbers(shorter));
        } else {
            assert(!numbers(shorter).contains(p.no)) by {
                if numbers(shorter).contains(p.no) {
                    let i = choose|i: int|
                        0 <= i < shorter.len() && #[trigger] shorter[i].no == p.no;
                    assert(shorter[i].no <= shorter[shorter.len() - 1].no);
                }
            }
        }
        if forall|n: int|
            tally.min_n <= n <= tally.max_n ==> #[trigger] numbers(packets).contains(n as u32) {
            assert forall|n: int| before.min_n <= n <= before.max_n implies #[trigger] numbers(
                shorter,
            ).contains(n as u32) by {
                assert(numbers(packets).contains(n as u32));
                if n == p.no {
                    assert(shorter[shorter.len() - 1].no == n);
                }
            }
            if p.no > q.no + 1 {
                let missing = (q.no + 1) as u32;
                assert(numbers(packets).contains(missing as int as u32));
                let i = choose|i: int|
                    0 <= i < packets.len() && #[trigger] packets[i].no == missing;
                if i < shorter.len() {
                    assert(packets[i].no <= packets[packets.len() - 2].no);
                }
                assert(false);
            }
        }
    }
}

/// The numbers of packets are the same in whatever order they leave.
proof fn lemma_numbers_of_output(arrivals: Seq<Packet>)
    ensures
        numbers(output(arrivals)) == numbers(arrivals),
{
    broadcast use vstd::seq_lib::group_to_multiset_ensures;

    law_output_is_permutation(arrivals);
    let out = output(arrivals);
    assert forall|n: u32| numbers(out).contains(n) <==> numbers(arrivals).contains(n) by {
        if numbers(out).contains(n) {
            let i = choose|i: int| 0 <= i < out.len() && #[trigger] out[i].no == n;
            assert(out.contains(out[i]));
            assert(arrivals.to_multiset().count(out[i]) > 0);
            assert(arrivals.contains(out[i]));
        }
        if numbers(arrivals).contains(n) {
            let i = choose|i: int| 0 <= i < arrivals.len() && #[trigger] arrivals[i].no == n;
            assert(arrivals.contains(arrivals[i]));
            assert(out.to_multiset().count(arrivals[i]) > 0);
            assert(out.contains(arrivals[i]));
        }
    }
    assert(numbers(out) =~= numbers(arrivals));
}

/// As long as no packet arrives after too many with higher numbers, each number
/// is counted once however often it comes, so that no more packets are counted
/// than the window is wide: the loss lies between nothing and everything, and
/// so does the bad loss. (Packets that all bear the highest number there is are
/// never counted.)
pub proof fn law_each_number_counts_once(deadline: TimeSpan, arrivals: Seq<Packet>)
    requires
        few_overtakings(arrivals),
        exists|i: int| 0 <= i < arrivals.len() && (#[trigger] arrivals[i]).no != u32::MAX,
    ensures
        ({
            let tally = ReceiverState::fresh(deadline).take_all(arrivals).drained();
            &&& numbers(arrivals).finite()
            &&& tally.ctr == numbers(arrivals).len()
            &&& tally.dup == arrivals.len() - numbers(arrivals).len()
            &&& 1 <= tally.ctr <= tally.window()
            &&& 0 <= tally.badloss < tally.window()
        }),
{
    lemma_whole_measurement(deadline, arrivals);
}

/// If moreover every number from the lowest to the highest comes back, there is
/// no loss and no bad loss.
pub proof fn law_complete_return_is_no_loss(deadline: TimeSpan, arrivals: Seq<Packet>)
    requires
        few_overtakings(arrivals),
        exists|i: int| 0 <= i < arrivals.len() && (#[trigger] arrivals[i]).no != u32::MAX,
        forall|i: int, j: int, n: u32|
            0 <= i < arrivals.len() && 0 <= j < arrivals.len() && (#[trigger] arrivals[i]).no <= n
                <= (#[trigger] arrivals[j]).no ==> #[trigger] numbers(arrivals).contains(n),
    ensures
        ({
            let tally = ReceiverState::fresh(deadline).take_all(arrivals).drained();
            &&& tally.ctr == tally.window()
            &&& tally.badloss == 0
        }),
{
    lemma_whole_measurement(deadline, arrivals);
    let tally = ReceiverState::fresh(deadline).take_all(arrivals).drained();
    let i = choose|i: int| 0 <= i < arrivals.len() && (#[trigger] arrivals[i]).no == tally.min_n;
    let j = choose|j: int| 0 <= j < arrivals.len() && (#[trigger] arrivals[j]).no == tally.max_n;
    assert forall|n: int| tally.min_n <= n <= tally.max_n implies #[trigger] numbers(
        arrivals,
    ).contains(n as u32) by {
        assert(arrivals[i].no <= n as u32 <= arrivals[j].no);
    }
}

proof fn lemma_whole_measurement(deadline: TimeSpan, arrivals: Seq<Packet>)
    requires
        few_overtakings(arrivals),
        exists|i: int| 0 <= i < arrivals.len() && (#[trigger] arrivals[i]).no != u32::MAX,
    ensures
        ({
            let tally = ReceiverState::fresh(deadline).take_all(arrivals).drained();
            &&& numbers(arrivals).finite()
            &&& tally.ctr == numbers(arrivals).len()
            &&& tally.ctr + tally.dup == arrivals.len()
            &&& 1 <= tally.ctr <= tally.window()
            &&& 0 <= tally.badloss < tally.window()
            &&& exists|i: int|
                0 <= i < arrivals.len() && (#[trigger] arrivals[i]).no == tally.min_n
            &&& exists|i: int|
                0 <= i < arrivals.len() && (#[trigger] arrivals[i]).no == tally.max_n
            &&& (forall|n: int|
                tally.min_n <= n <= tally.max_n ==> #[trigger] numbers(arrivals).contains(n as u32))
                ==> tally.ctr == tally.window() && tally.badloss == 0
        }),
{
    let out = output(arrivals);
    law_counted_in_output_order(deadline, arrivals);
    law_output_is_permutation(arrivals);
    law_output_in_order(arrivals);
    lemma_tally_of_all(out);
    lemma_numbers_of_output(arrivals);
    lemma_first_out(arrivals);
    lemma_tally_in_order(out);
    assert(numbers(out).contains(out[0].no));
    assert(numbers(arrivals).contains(out[0].no));
    assert(out[out.len() - 1].no == out.last().no);
    assert(numbers(out).contains(out.last().no));
    assert(numbers(arrivals).contains(out.last().no));
}

/// The datagram with the number `no` that a run sends comes back as a packet
/// with that number.
proof fn lemma_sent_number(
    packet_size: int,
    packets_per_second: u32,
    duration_seconds: u64,
    destinations: int,
    start: TimeSpan,
    clock: Seq<TimeSpan>,
    no: int,
    now: TimeSpan,
)
    requires
        packet_size >= wire::HEADER_LEN,
        0 < destinations,
        0 <= no < clock.len() * destinations <= u32::MAX,
    ensures
        ({
            let fresh = SenderState::fresh(
                packet_size,
                packets_per_second,
                duration_seconds,
                destinations,
                start,
            );
            packet_of(fresh.sent(clock)[no].datagram, now).no == no
        }),
{
    let round = no / destinations;
    let to = no % destinations;
    vstd::arithmetic::div_mod::lemma_fundamental_div_mod(no, destinations);
    assert(0 <= round < clock.len() && 0 <= to < destinations && no == round * destinations + to)
        by (nonlinear_arith)
        requires
            0 < destinations,
            0 <= no < clock.len() * destinations,
            round == no / destinations,
            to == no % destinations,
            no == destinations * round + to,
    ;
    sender::law_run_sends_everything(
        packet_size,
        packets_per_second,
        duration_seconds,
        destinations,
        start,
        clock,
        round,
        to,
    );
    let blank = Seq::new(packet_size as nat, |i: int| 0u8);
    wire::law_header_read_of_write(blank, clock[round], no as u32);
}

/// A measurement in which everything that was sent comes back shows no loss, in
/// whatever order and however often the datagrams return, as long as none
/// returns after too many with higher numbers. Here `origin[i]` is the number of
/// the datagram that returned as the `i`-th one, at `returned[i]`.
pub proof fn law_perfect_echo_is_no_loss(
    packet_size: int,
    packets_per_second: u32,
    duration_seconds: u64,
    destinations: int,
    start: TimeSpan,
    clock: Seq<TimeSpan>,
    origin: Seq<int>,
    returned: Seq<TimeSpan>,
    arrivals: Seq<Packet>,
    deadline: TimeSpan,
)
    requires
        packet_size >= wire::HEADER_LEN,
        0 < destinations,
        0 < clock.len() * destinations <= u32::MAX,
        few_overtakings(arrivals),
        origin.len() == arrivals.len(),
        returned.len() == arrivals.len(),
        forall|i: int|
            0 <= i < arrivals.len() ==> {
                &&& 0 <= #[trigger] origin[i] < clock.len() * destinations
                &&& arrivals[i] == packet_of(
                    SenderState::fresh(
                        packet_size,
                        packets_per_second,
                        duration_seconds,
                        destinations,
                        start,
                    ).sent(clock)[origin[i]].datagram,
                    returned[i],
                )
            },
        forall|no: int| 0 <= no < clock.len() * destinations ==> #[trigger] origin.contains(no),
    ensures
        ({
            let tally = ReceiverState::fresh(deadline).take_all(arrivals).drained();
            &&& tally.ctr == clock.len() * destinations
            &&& tally.window() == clock.len() * destinations
            &&& tally.badloss == 0
            &&& tally.dup == arrivals.len() - clock.len() * destinations
        }),
{
    let total = clock.len() * destinations;
    assert forall|i: int| 0 <= i < arrivals.len() implies (#[trigger] arrivals[i]).no
        == origin[i] by {
        lemma_sent_number(
            packet_size,
            packets_per_second,
            duration_seconds,
            destinations,
            start,
            clock,
            origin[i],
            returned[i],
        );
    }
    assert forall|n: u32| n < total implies #[trigger] numbers(arrivals).contains(n) by {
        assert(origin.contains(n as int));
        let i = choose|i: int| 0 <= i < origin.len() && origin[i] == n as int;
        assert(arrivals[i].no == n);
    }
    assert(numbers(arrivals).contains(0u32));
    let first = choose|i: int| 0 <= i < arrivals.len() && #[trigger] arrivals[i].no == 0u32;
    assert(arrivals[first].no != u32::MAX);
    let last_no = (total - 1) as u32;
    assert(numbers(arrivals).contains(last_no));
    let last = choose|i: int| 0 <= i < arrivals.len() && #[trigger] arrivals[i].no == last_no;
    assert forall|i: int, j: int, n: u32|
        0 <= i < arrivals.len() && 0 <= j < arrivals.len() && (#[trigger] arrivals[i]).no <= n <= (
        #[trigger] arrivals[j]).no implies #[trigger] numbers(arrivals).contains(n) by {
        assert(arrivals[j].no == origin[j]);
    }
    law_complete_return_is_no_loss(deadline, arrivals);
    lemma_whole_measurement(deadline, arrivals);
    lemma_window_of_run(deadline, arrivals, origin, total, first, last);
}

/// Where the first and the last of `total` numbers are among the arrivals, the
/// window is as wide as their count.
proof fn lemma_window_of_run(
    deadline: TimeSpan,
    arrivals: Seq<Packet>,
    origin: Seq<int>,
    total: int,
    first: int,
    last: int,
)
    requires
        0 <= first < arrivals.len(),
        0 <= last < arrivals.len(),
        arrivals[first].no == 0,
        arrivals[last].no == total - 1,
        origin.len() == arrivals.len(),
        forall|i: int|
            0 <= i < arrivals.len() ==> (#[trigger] arrivals[i]).no == origin[i] && 0 <= origin[i]
                < total,
    ensures
        ReceiverState::fresh(deadline).take_all(arrivals).drained().window() == total,
{
    law_window_spans_what_came(deadline, arrivals);
    let tally = ReceiverState::fresh(deadline).take_all(arrivals).drained();
    assert(tally.min_n <= arrivals[first].no);
    assert(arrivals[last].no <= tally.max_n);
    let low = choose|i: int| 0 <= i < arrivals.len() && (#[trigger] arrivals[i]).no == tally.min_n;
    let high = choose|i: int| 0 <= i < arrivals.len() && (#[trigger] arrivals[i]).no == tally.max_n;
    assert(arrivals[low].no == origin[low]);
    assert(arrivals[high].no == origin[high]);
}

/// The window reaches from the lowest number that came back to the highest,
/// whatever the order.
pub proof fn law_window_spans_what_came(deadline: TimeSpan, arrivals: Seq<Packet>)
    requires
        arrivals.len() > 0,
    ensures
        ({
            let tally = ReceiverState::fresh(deadline).take_all(arrivals).drained();
            &&& forall|i: int|
                0 <= i < arrivals.len() ==> tally.min_n <= (#[trigger] arrivals[i]).no
                    <= tally.max_n
            &&& exists|i: int|
                0 <= i < arrivals.len() && (#[trigger] arrivals[i]).no == tally.min_n
            &&& exists|i: int|
                0 <= i < arrivals.len() && (#[trigger] arrivals[i]).no == tally.max_n
        }),
{
    law_counted_in_output_order(deadline, arrivals);
    law_output_is_permutation(arrivals);
    lemma_numbers_of_output(arrivals);
    let out = output(arrivals);
    let tally = Tally::empty().analyse_all(out);
    assert forall|i: int| 0 <= i < arrivals.len() implies tally.min_n <= (#[trigger] arrivals[i]).no
        <= tally.max_n by {
        assert(numbers(arrivals).contains(arrivals[i].no));
        assert(numbers(out).contains(arrivals[i].no));
        let k = choose|k: int| 0 <= k < out.len() && #[trigger] out[k].no == arrivals[i].no;
        lemma_extremes_of_tally(out, k);
    }
    lemma_extremes_are_numbers(out);
    assert(numbers(arrivals).contains(tally.min_n as u32));
    assert(numbers(arrivals).contains(tally.max_n as u32));
}

proof fn lemma_extremes_of_tally(packets: Seq<Packet>, k: int)
    requires
        0 <= k < packets.len(),
    ensures
        Tally::empty().analyse_all(packets).min_n <= packets[k].no <= Tally::empty().analyse_all(
            packets,
        ).max_n,
    decreases packets.len(),
{
    if k < packets.len() - 1 {
        lemma_extremes_of_tally(packets.drop_last(), k);
    }
}

proof fn lemma_extremes_are_numbers(packets: Seq<Packet>)
    requires
        packets.len() > 0,
    ensures
        ({
            let tally = Tally::empty().analyse_all(packets);
            &&& 0 <= tally.min_n <= u32::MAX
            &&& 0 <= tally.max_n <= u32::MAX
            &&& numbers(packets).contains(tally.min_n as u32)
            &&& numbers(packets).contains(tally.max_n as u32)
        }),
    decreases packets.len(),
{
    let tally = Tally::empty().analyse_all(packets);
    let shorter = packets.drop_last();
    assert(packets[packets.len() - 1].no == packets.last().no);
    assert(numbers(packets).contains(packets.last().no));
    if packets.len() == 1 {
        reveal_with_fuel(Tally::analyse_all, 2);
    } else {
        lemma_extremes_are_numbers(shorter);
        let before = Tally::empty().analyse_all(shorter);
        let low = choose|i: int|
            0 <= i < shorter.len() && #[trigger] shorter[i].no == before.min_n as u32;
        assert(packets[low].no == before.min_n as u32);
        let high = choose|i: int|
            0 <= i < shorter.len() && #[trigger] shorter[i].no == before.max_n as u32;
        assert(packets[high].no == before.max_n as u32);
    }
}

/// No two of `packets` have the same number, and none has the highest there is.
pub open spec fn distinct_numbers(packets: Seq<Packet>) -> bool {
    &&& forall|i: int, j: int|
        0 <= i < j < packets.len() ==> (#[trigger] packets[i]).no != (#[trigger] packets[j]).no
    &&& forall|i: int| 0 <= i < packets.len() ==> (#[trigger] packets[i]).no < u32::MAX
}

/// How many of `packets` were under way for a time in bracket `b`.
pub open spec fn in_bracket(packets: Seq<Packet>, b: int) -> nat
    decreases packets.len(),
{
    if packets.len() == 0 {
        0
    } else {
        in_bracket(packets.drop_last(), b) + if stats::rtt4_bracket(
            packets.last().rtt4.total_nanos(),
        ) == b {
            1nat
        } else {
            0
        }
    }
}

/// Packets with distinct numbers are all counted, each in the bracket of its
/// time under way, whatever the order in which they come back.
pub proof fn law_distinct_numbers_all_count(deadline: TimeSpan, arrivals: Seq<Packet>)
    requires
        distinct_numbers(arrivals),
    ensures
        ({
            let tally = ReceiverState::fresh(deadline).take_all(arrivals).drained();
            &&& tally.ctr == arrivals.len()
            &&& tally.dup == 0
            &&& forall|b: int|
                0 <= b < 6 ==> #[trigger] tally.rtt4stats[b] == in_bracket(arrivals, b)
        }),
{
    let out = output(arrivals);
    law_counted_in_output_order(deadline, arrivals);
    law_output_is_permutation(arrivals);
    lemma_distinct_output(arrivals);
    lemma_tally_of_distinct(out);
    assert forall|b: int| 0 <= b < 6 implies #[trigger] Tally::empty().analyse_all(out).rtt4stats[b]
        == in_bracket(arrivals, b) by {
        lemma_in_bracket_of_output(arrivals, b);
    }
}

proof fn lemma_tally_of_distinct(packets: Seq<Packet>)
    requires
        distinct_numbers(packets),
    ensures
        ({
            let tally = Tally::empty().analyse_all(packets);
            &&& tally.ctr == packets.len()
            &&& tally.dup == 0
            &&& tally.prevn == if packets.len() == 0 {
                u32::MAX
            } else {
                packets.last().no
            }
            &&& tally.rtt4stats.len() == 6
            &&& forall|b: int|
                0 <= b < 6 ==> #[trigger] tally.rtt4stats[b] == in_bracket(packets, b)
        }),
    decreases packets.len(),
{
    if packets.len() > 0 {
        let shorter = packets.drop_last();
        assert forall|i: int, j: int| 0 <= i < j < shorter.len() implies (#[trigger] shorter[i]).no
            != (#[trigger] shorter[j]).no by {
            assert(shorter[i] == packets[i] && shorter[j] == packets[j]);
        }
        assert forall|i: int| 0 <= i < shorter.len() implies (#[trigger] shorter[i]).no
            < u32::MAX by {
            assert(shorter[i] == packets[i]);
        }
        lemma_tally_of_distinct(shorter);
        assert(packets[packets.len() - 1].no < u32::MAX);
        if shorter.len() > 0 {
            assert(packets[packets.len() - 2].no != packets[packets.len() - 1].no);
        }
    }
}

proof fn lemma_in_bracket_of_pieces(a: Seq<Packet>, c: Seq<Packet>, b: int)
    ensures
        in_bracket(a + c, b) == in_bracket(a, b) + in_bracket(c, b),
    decreases c.len(),
{
    if c.len() == 0 {
        assert(a + c =~= a);
    } else {
        assert((a + c).drop_last() =~= a + c.drop_last());
        lemma_in_bracket_of_pieces(a, c.drop_last(), b);
    }
}

proof fn lemma_in_bracket_of_inserted(packets: Seq<Packet>, p: Packet, b: int)
    ensures
        in_bracket(insert_by_no(packets, p), b) == in_bracket(packets.push(p), b),
    decreases packets.len(),
{
    reveal_with_fuel(in_bracket, 2);
    assert(packets.push(p).drop_last() =~= packets);
    if packets.len() > 0 && packets.last().no > p.no {
        let shorter = packets.drop_last();
        lemma_in_bracket_of_inserted(shorter, p, b);
        assert(insert_by_no(packets, p).drop_last() =~= insert_by_no(shorter, p));
        assert(shorter.push(p).drop_last() =~= shorter);
    }
}

proof fn lemma_in_bracket_of_output(arrivals: Seq<Packet>, b: int)
    ensures
        in_bracket(output(arrivals), b) == in_bracket(arrivals, b),
    decreases arrivals.len(),
{
    if arrivals.len() == 0 {
        assert(output(arrivals) =~= arrivals);
    } else {
        let earlier = arrivals.drop_last();
        let p = arrivals.last();
        lemma_in_bracket_of_output(earlier, b);
        lemma_output_step(arrivals);
        lemma_in_bracket_of_pieces(released(earlier), insert_by_no(held(earlier), p), b);
        lemma_in_bracket_of_pieces(released(earlier), held(earlier), b);
        lemma_in_bracket_of_inserted(held(earlier), p, b);
        assert(held(earlier).push(p).drop_last() =~= held(earlier));
    }
}

/// `with_number` finds a packet that is there, and both of two.
proof fn lemma_with_number_finds(packets: Seq<Packet>, i: int, j: int)
    requires
        0 <= i <= j < packets.len(),
        packets[i].no == packets[j].no,
    ensures
        with_number(packets, packets[i].no).len() >= if i < j {
            2nat
        } else {
            1
        },
    decreases packets.len(),
{
    let shorter = packets.drop_last();
    if j < shorter.len() {
        lemma_with_number_finds(shorter, i, j);
    } else if i < j {
        lemma_with_number_finds(shorter, i, i);
    }
}

/// `with_number` finds nothing but packets with that number.
proof fn lemma_with_number_of_distinct(packets: Seq<Packet>, no: u32)
    requires
        distinct_numbers(packets),
    ensures
        with_number(packets, no).len() <= 1,
        with_number(packets, no).len() == 1 ==> numbers(packets).contains(no),
    decreases packets.len(),
{
    if packets.len() > 0 {
        let shorter = packets.drop_last();
        assert forall|i: int, j: int| 0 <= i < j < shorter.len() implies (#[trigger] shorter[i]).no
            != (#[trigger] shorter[j]).no by {
            assert(shorter[i] == packets[i] && shorter[j] == packets[j]);
        }
        assert forall|i: int| 0 <= i < shorter.len() implies (#[trigger] shorter[i]).no
            < u32::MAX by {
            assert(shorter[i] == packets[i]);
        }
        lemma_with_number_of_distinct(shorter, no);
        assert(packets[packets.len() - 1] == packets.last());
        if numbers(shorter).contains(no) {
            let i = choose|i: int| 0 <= i < shorter.len() && #[trigger] shorter[i].no == no;
            assert(packets[i].no == no);
            assert(packets[i].no != packets[packets.len() - 1].no);
        }
    }
}

proof fn lemma_distinct_output(arrivals: Seq<Packet>)
    requires
        distinct_numbers(arrivals),
    ensures
        distinct_numbers(output(arrivals)),
{
    let out = output(arrivals);
    assert forall|i: int, j: int| 0 <= i < j < out.len() implies (#[trigger] out[i]).no != (
    #[trigger] out[j]).no by {
        if out[i].no == out[j].no {
            lemma_with_number_finds(out, i, j);
            law_copies_keep_their_order(arrivals, out[i].no);
            lemma_with_number_of_distinct(arrivals, out[i].no);
        }
    }
    lemma_numbers_of_output(arrivals);
    assert forall|i: int| 0 <= i < out.len() implies (#[trigger] out[i]).no < u32::MAX by {
        assert(numbers(out).contains(out[i].no));
        assert(numbers(arrivals).contains(out[i].no));
        let k = choose|k: int| 0 <= k < arrivals.len() && #[trigger] arrivals[k].no == out[i].no;
        assert(arrivals[k].no < u32::MAX);
    }
}

/// The loss of a measurement is what did not come back: if of the datagrams of a
/// run the first and the last and any others return, each once and in whatever
/// order, then as many are counted as returned, from a window as wide as the run.
/// Here `origin[i]` is the number of the datagram that returned as the `i`-th
/// one, at `returned[i]`.
pub proof fn law_loss_is_what_did_not_return(
    packet_size: int,
    packets_per_second: u32,
    duration_seconds: u64,
    destinations: int,
    start: TimeSpan,
    clock: Seq<TimeSpan>,
    origin: Seq<int>,
    returned: Seq<TimeSpan>,
    arrivals: Seq<Packet>,
    deadline: TimeSpan,
)
    requires
        packet_size >= wire::HEADER_LEN,
        0 < destinations,
        0 < clock.len() * destinations <= u32::MAX,
        origin.len() == arrivals.len(),
        returned.len() == arrivals.len(),
        forall|i: int|
            0 <= i < arrivals.len() ==> {
                &&& 0 <= #[trigger] origin[i] < clock.len() * destinations
                &&& arrivals[i] == packet_of(
                    SenderState::fresh(
                        packet_size,
                        packets_per_second,
                        duration_seconds,
                        destinations,
                        start,
                    ).sent(clock)[origin[i]].datagram,
                    returned[i],
                )
            },
        origin.no_duplicates(),
        origin.contains(0),
        origin.contains(clock.len() * destinations - 1),
    ensures
        ({
            let tally = ReceiverState::fresh(deadline).take_all(arrivals).drained();
            &&& tally.ctr == origin.len()
            &&& tally.dup == 0
            &&& tally.window() == clock.len() * destinations
            &&& tally.window() - tally.ctr == clock.len() * destinations - origin.len()
        }),
{
    let total = clock.len() * destinations;
    assert forall|i: int| 0 <= i < arrivals.len() implies (#[trigger] arrivals[i]).no == origin[i]
        && 0 <= origin[i] < total by {
        lemma_sent_number(
            packet_size,
            packets_per_second,
            duration_seconds,
            destinations,
            start,
            clock,
            origin[i],
            returned[i],
        );
    }
    assert forall|i: int, j: int| 0 <= i < j < arrivals.len() implies (#[trigger] arrivals[i]).no
        != (#[trigger] arrivals[j]).no by {
        assert(origin[i] != origin[j]);
    }
    law_distinct_numbers_all_count(deadline, arrivals);
    let first = choose|i: int| 0 <= i < origin.len() && origin[i] == 0;
    let last = choose|i: int| 0 <= i < origin.len() && origin[i] == total - 1;
    assert(arrivals[first].no == 0);
    assert(arrivals[last].no == total - 1);
    lemma_window_of_run(deadline, arrivals, origin, total, first, last);
}

/// The highest of `nums` below `n`, if there is one.
pub open spec fn next_below(nums: Set<u32>, n: int) -> Option<int>
    decreases n,
{
    if n <= 0 {
        None
    } else if nums.contains((n - 1) as u32) {
        Some(n - 1)
    } else {
        next_below(nums, n - 1)
    }
}

/// The step from the next number below up to `n`, if `n` is one of `nums` and the
/// step is long enough to count as bad loss.
pub open spec fn long_step(nums: Set<u32>, n: int) -> int {
    match next_below(nums, n) {
        Some(below) if nums.contains(n as u32) && n - below > 50 => n - below,
        _ => 0,
    }
}

/// The sum of the long steps between neighbours among those of `nums` up to `n`.
pub open spec fn long_steps(nums: Set<u32>, n: int) -> int
    decreases n + 1,
{
    if n < 0 {
        0
    } else {
        long_steps(nums, n - 1) + long_step(nums, n)
    }
}

/// As long as no packet arrives after too many with higher numbers, the bad loss
/// is the sum of the long steps between neighbours among the numbers that came
/// back. (Packets that all bear the highest number there is are never counted.)
pub proof fn law_bad_loss_is_long_steps(deadline: TimeSpan, arrivals: Seq<Packet>)
    requires
        few_overtakings(arrivals),
        exists|i: int| 0 <= i < arrivals.len() && (#[trigger] arrivals[i]).no != u32::MAX,
    ensures
        ReceiverState::fresh(deadline).take_all(arrivals).drained().badloss == long_steps(
            numbers(arrivals),
            u32::MAX as int,
        ),
{
    let out = output(arrivals);
    law_counted_in_output_order(deadline, arrivals);
    law_output_in_order(arrivals);
    lemma_first_out(arrivals);
    lemma_numbers_of_output(arrivals);
    lemma_badloss_in_order(out);
    assert forall|n: int| out.last().no < n <= u32::MAX implies !#[trigger] numbers(out).contains(
        n as u32,
    ) by {
        if numbers(out).contains(n as u32) {
            let i = choose|i: int| 0 <= i < out.len() && #[trigger] out[i].no == n as u32;
            assert(out[i].no <= out[out.len() - 1].no);
        }
    }
    lemma_no_steps_in_gap(numbers(out), out.last().no as int, u32::MAX as int);
}

/// The first packet out does not bear the highest number there is, unless all do.
proof fn lemma_first_out(arrivals: Seq<Packet>)
    requires
        few_overtakings(arrivals),
        exists|i: int| 0 <= i < arrivals.len() && (#[trigger] arrivals[i]).no != u32::MAX,
    ensures
        output(arrivals).len() > 0,
        output(arrivals)[0].no != u32::MAX,
{
    let out = output(arrivals);
    law_output_is_permutation(arrivals);
    law_output_in_order(arrivals);
    lemma_numbers_of_output(arrivals);
    let k = choose|k: int| 0 <= k < arrivals.len() && (#[trigger] arrivals[k]).no != u32::MAX;
    assert(numbers(arrivals).contains(arrivals[k].no));
    assert(numbers(out).contains(arrivals[k].no));
    let m = choose|m: int| 0 <= m < out.len() && #[trigger] out[m].no == arrivals[k].no;
    assert(out[0].no <= out[m].no);
}

/// Where two sets agree below `n`, they have the same neighbours below it.
proof fn lemma_next_below_agrees(a: Set<u32>, b: Set<u32>, n: int)
    requires
        0 <= n <= u32::MAX,
        forall|m: int| 0 <= m < n ==> a.contains(m as u32) == #[trigger] b.contains(m as u32),
    ensures
        next_below(a, n) == next_below(b, n),
    decreases n,
{
    if n > 0 {
        assert(a.contains((n - 1) as u32) == b.contains((n - 1) as u32));
        lemma_next_below_agrees(a, b, n - 1);
    }
}

proof fn lemma_long_steps_agree(a: Set<u32>, b: Set<u32>, n: int)
    requires
        -1 <= n < u32::MAX,
        forall|m: int| 0 <= m <= n ==> a.contains(m as u32) == #[trigger] b.contains(m as u32),
    ensures
        long_steps(a, n) == long_steps(b, n),
    decreases n + 1,
{
    if n >= 0 {
        lemma_long_steps_agree(a, b, n - 1);
        lemma_next_below_agrees(a, b, n);
        assert(a.contains(n as u32) == b.contains(n as u32));
    }
}

proof fn lemma_no_steps_in_gap(nums: Set<u32>, low: int, high: int)
    requires
        0 <= low <= high <= u32::MAX,
        forall|n: int| low < n <= high ==> !#[trigger] nums.contains(n as u32),
    ensures
        long_steps(nums, high) == long_steps(nums, low),
    decreases high,
{
    if low < high {
        assert(!nums.contains(high as u32));
        lemma_no_steps_in_gap(nums, low, high - 1);
    }
}

proof fn lemma_next_below_over_gap(nums: Set<u32>, low: int, high: int)
    requires
        0 <= low < high <= u32::MAX,
        nums.contains(low as u32),
        forall|n: int| low < n < high ==> !#[trigger] nums.contains(n as u32),
    ensures
        next_below(nums, high) == Some(low),
    decreases high,
{
    if low + 1 < high {
        assert(!nums.contains((high - 1) as u32));
        lemma_next_below_over_gap(nums, low, high - 1);
    }
}

proof fn lemma_nothing_below(nums: Set<u32>, n: int)
    requires
        0 <= n <= u32::MAX,
        forall|m: int| 0 <= m < n ==> !#[trigger] nums.contains(m as u32),
    ensures
        next_below(nums, n) is None,
        long_steps(nums, n) == 0,
    decreases n,
{
    if n > 0 {
        assert(!nums.contains((n - 1) as u32));
        lemma_nothing_below(nums, n - 1);
    } else {
        assert(long_steps(nums, -1) == 0);
    }
}

/// The bad loss of packets that come in the order of their numbers.
proof fn lemma_badloss_in_order(packets: Seq<Packet>)
    requires
        in_number_order(packets),
        packets.len() > 0,
        packets[0].no != u32::MAX,
    ensures
        ({
            let tally = Tally::empty().analyse_all(packets);
            &&& tally.prevn == packets.last().no
            &&& tally.badloss == long_steps(numbers(packets), packets.last().no as int)
        }),
    decreases packets.len(),
{
    let shorter = packets.drop_last();
    let p = packets.last();
    let nums = numbers(packets);
    assert(packets[packets.len() - 1] == p);
    if packets.len() == 1 {
        reveal_with_fuel(Tally::analyse_all, 2);
        assert forall|m: int| 0 <= m < p.no implies !#[trigger] nums.contains(m as u32) by {
            if nums.contains(m as u32) {
                let i = choose|i: int| 0 <= i < packets.len() && #[trigger] packets[i].no == m as u32;
            }
        }
        lemma_nothing_below(nums, p.no as int);
    } else {
        let q = shorter.last();
        let fewer = numbers(shorter);
        assert forall|i: int, j: int| 0 <= i <= j < shorter.len() implies (#[trigger] shorter[i]).no
            <= (#[trigger] shorter[j]).no by {
            assert(shorter[i] == packets[i] && shorter[j] == packets[j]);
        }
        lemma_badloss_in_order(shorter);
        assert(packets[packets.len() - 2] == q);
        assert(shorter[shorter.len() - 1].no == q.no);
        assert forall|n: u32| nums.contains(n) <==> #[trigger] fewer.contains(n) || n == p.no by {
            if nums.contains(n) {
                let i = choose|i: int| 0 <= i < packets.len() && #[trigger] packets[i].no == n;
                if i < shorter.len() {
                    assert(shorter[i].no == n);
                }
            }
            if fewer.contains(n) {
                let i = choose|i: int| 0 <= i < shorter.len() && #[trigger] shorter[i].no == n;
                assert(packets[i].no == n);
            }
        }
        if p.no == q.no {
            assert(fewer.contains(q.no));
            assert(nums =~= fewer);
        } else {
            assert(q.no < p.no);
            assert forall|n: int| q.no < n < p.no implies !#[trigger] nums.contains(n as u32) by {
                if nums.contains(n as u32) {
                    assert(fewer.contains(n as u32));
                    let i = choose|i: int|
                        0 <= i < shorter.len() && #[trigger] shorter[i].no == n as u32;
                    assert(shorter[i].no <= shorter[shorter.len() - 1].no);
                }
            }
            assert forall|m: int| 0 <= m <= q.no implies nums.contains(m as u32)
                == #[trigger] fewer.contains(m as u32) by {}
            lemma_long_steps_agree(nums, fewer, q.no as int);
            lemma_no_steps_in_gap(nums, q.no as int, p.no - 1);
            assert(nums.contains(q.no as int as u32));
            lemma_next_below_over_gap(nums, q.no as int, p.no as int);
            assert(nums.contains(p.no as int as u32));
        }
    }
}

/// The packet that any readable datagram stands for: its number is the one in the
/// header, and its time under way the one from the sending time in the header to
/// now, or 999 seconds if that sending time is still to come.
pub proof fn law_packet_of_any_datagram(datagram: Seq<u8>, now: TimeSpan)
    requires
        readable(datagram),
        now.wf(),
    ensures
        packet_of(datagram, now).no == wire::header_no(datagram),
        packet_of(datagram, now).rtt4.wf(),
        wire::header_nanos(datagram) <= now.total_nanos() ==> packet_of(
            datagram,
            now,
        ).rtt4.total_nanos() + wire::header_nanos(datagram) == now.total_nanos(),
        wire::header_nanos(datagram) > now.total_nanos() ==> packet_of(
            datagram,
            now,
        ).rtt4.total_nanos() == 999_000_000_000,
{
    wire::law_header_byte_by_byte(datagram);
    if wire::header_nanos(datagram) <= now.total_nanos() {
        timespan::law_span_of_nanos(
            now.total_nanos() - wire::header_nanos(datagram),
            TimeSpan { secs: 0, nanos: 0 },
        );
    }
}

/// A datagram is readable exactly if it has sixteen bytes and there is a span as
/// long as the sending time in them.
pub proof fn law_readable_datagrams(datagram: Seq<u8>)
    ensures
        readable(datagram) <==> datagram.len() >= 16 && exists|sent: TimeSpan|
            sent.wf() && #[trigger] sent.total_nanos() == wire::header_nanos(datagram),
{
    timespan::law_representable_lengths(wire::header_nanos(datagram) as int);
}

/// What a receiver answers after `arrivals` came back: nothing counts after the
/// deadline, an empty wakeup changes nothing, and a datagram joins the arrivals,
/// as the first one exactly if there was none before.
pub proof fn law_wakeups(
    deadline: TimeSpan,
    arrivals: Seq<Packet>,
    now: TimeSpan,
    datagram: Seq<u8>,
)
    ensures
        ({
            let state = ReceiverState::fresh(deadline).take_all(arrivals);
            &&& now.total_nanos() > deadline.total_nanos() ==> {
                &&& state.wakeup(now, None) == Wakeup::Expired
                &&& state.wakeup(now, Some(datagram)) == Wakeup::Expired
                &&& state.after_wakeup(now, Some(datagram)) == state
            }
            &&& now.total_nanos() <= deadline.total_nanos() ==> {
                &&& state.wakeup(now, None) == Wakeup::Nothing
                &&& state.wakeup(now, Some(datagram)) == (Wakeup::Taken {
                    first: arrivals.len() == 0,
                })
                &&& state.after_wakeup(now, Some(datagram)) == ReceiverState::fresh(
                    deadline,
                ).take_all(arrivals.push(packet_of(datagram, now)))
            }
            &&& state.after_wakeup(now, None) == state
        }),
{
    lemma_receiver_history(deadline, arrivals);
    let p = packet_of(datagram, now);
    assert(arrivals.push(p).drop_last() =~= arrivals);
    assert(arrivals.push(p).last() == p);
}

/// A receiver can listen exactly if there is a span that lasts from its start for
/// the seconds asked for, and stops at the end of that span.
pub proof fn law_deadline(start: TimeSpan, duration_seconds: u64)
    requires
        start.wf(),
    ensures
        receiver::listenable(start, duration_seconds) <==> exists|end: TimeSpan|
            end.wf() && #[trigger] end.total_nanos() == start.total_nanos() + duration_seconds
                * 1_000_000_000,
        receiver::listenable(start, duration_seconds) ==> ({
            let end = TimeSpan::of_nanos(receiver::deadline_nanos(start, duration_seconds));
            &&& end.wf()
            &&& end.total_nanos() == start.total_nanos() + duration_seconds * 1_000_000_000
        }),
{
    timespan::law_representable_lengths(start.total_nanos() + duration_seconds * 1_000_000_000);
    if receiver::listenable(start, duration_seconds) {
        timespan::law_span_of_nanos(receiver::deadline_nanos(start, duration_seconds), start);
    }
}

/// There is room for one more packet until as many as 32 bits can count have come.
pub proof fn law_room(deadline: TimeSpan, arrivals: Seq<Packet>)
    ensures
        ReceiverState::fresh(deadline).take_all(arrivals).taken() == arrivals.len(),
        ReceiverState::fresh(deadline).take_all(arrivals).has_room() <==> arrivals.len()
            < 0xffff_ffff,
{
    law_counted_in_output_order(deadline, arrivals);
    law_output_is_permutation(arrivals);
    lemma_tally_of_all(released(arrivals));
}

proof fn lemma_receiver_history(deadline: TimeSpan, arrivals: Seq<Packet>)
    ensures
        ReceiverState::fresh(deadline).take_all(arrivals).deadline == deadline,
        ReceiverState::fresh(deadline).take_all(arrivals).received_something == (arrivals.len()
            > 0),
    decreases arrivals.len(),
{
    if arrivals.len() > 0 {
        lemma_receiver_history(deadline, arrivals.drop_last());
    }
}

/// What the jitter buffer does with one more packet, however late it comes: up to
/// 1022 packets are held back, and beyond that the first one in the order of the
/// numbers leaves. Packets with the same number stay in the order in which they
/// came.
pub proof fn law_buffer_step(kept: Seq<Packet>, p: Packet, no: u32)
    requires
        in_number_order(kept),
        kept.len() <= 1022,
    ensures
        jitter::released_by(kept, p).len() == if kept.len() == 1022 {
            1int
        } else {
            0
        },
        jitter::released_by(kept, p).len() + jitter::held_after(kept, p).len() == kept.len() + 1,
        in_number_order(jitter::released_by(kept, p) + jitter::held_after(kept, p)),
        (jitter::released_by(kept, p) + jitter::held_after(kept, p)).to_multiset()
            == kept.to_multiset().insert(p),
        with_number(jitter::released_by(kept, p) + jitter::held_after(kept, p), no) == with_number(
            kept.push(p),
            no,
        ),
{
    let all = insert_by_no(kept, p);
    jitter::law_insert_keeps_order(kept, p);
    lemma_with_number_of_inserted(kept, p, no);
    assert(jitter::released_by(kept, p) + jitter::held_after(kept, p) =~= all);
}

/// Something is counted exactly if a packet comes with any but the highest number
/// there is.
proof fn lemma_something_counted(packets: Seq<Packet>)
    ensures
        Tally::empty().analyse_all(packets).ctr >= 0,
        Tally::empty().analyse_all(packets).ctr > 0 <==> exists|i: int|
            0 <= i < packets.len() && (#[trigger] packets[i]).no != u32::MAX,
    decreases packets.len(),
{
    if packets.len() > 0 {
        let shorter = packets.drop_last();
        lemma_something_counted(shorter);
        stats::lemma_last_number(shorter);
        assert(packets[packets.len() - 1] == packets.last());
        assert(forall|i: int| 0 <= i < shorter.len() ==> #[trigger] shorter[i] == packets[i]);
        if Tally::empty().analyse_all(shorter).ctr > 0 {
            let i = choose|i: int|
                0 <= i < shorter.len() && (#[trigger] shorter[i]).no != u32::MAX;
            assert(packets[i].no != u32::MAX);
        } else {
            assert forall|i: int| 0 <= i < shorter.len() implies (#[trigger] packets[i]).no
                == u32::MAX by {
                assert(shorter[i] == packets[i]);
            }
            if shorter.len() > 0 {
                assert(shorter[shorter.len() - 1].no == u32::MAX);
            }
        }
    }
}

/// In whatever order the replies come, there is a summary exactly if one of them
/// has any but the highest number there is, and its window is the highest number
/// that came, less the lowest, and one: numbers below the lowest or above the
/// highest do not make it wider, and missing ones in between do not make it
/// narrower.
pub proof fn law_window_of_summary(
    deadline: TimeSpan,
    arrivals: Seq<Packet>,
    summary: Option<Summary>,
    lowest: int,
    highest: int,
)
    requires
        stats::summarises(summary, ReceiverState::fresh(deadline).take_all(arrivals).drained()),
        0 <= lowest < arrivals.len(),
        0 <= highest < arrivals.len(),
        forall|i: int|
            0 <= i < arrivals.len() ==> arrivals[lowest].no <= (#[trigger] arrivals[i]).no
                <= arrivals[highest].no,
    ensures
        summary is Some <==> arrivals[lowest].no != 0xffff_ffff,
        summary is Some ==> summary->0.window == arrivals[highest].no - arrivals[lowest].no + 1,
{
    let out = output(arrivals);
    law_counted_in_output_order(deadline, arrivals);
    law_window_spans_what_came(deadline, arrivals);
    lemma_something_counted(out);
    lemma_numbers_of_output(arrivals);
    assert(numbers(arrivals).contains(arrivals[lowest].no));
    assert(numbers(out).contains(arrivals[lowest].no));
    let k = choose|k: int| 0 <= k < out.len() && #[trigger] out[k].no == arrivals[lowest].no;
    if arrivals[lowest].no == u32::MAX {
        assert forall|i: int| 0 <= i < out.len() implies (#[trigger] out[i]).no == u32::MAX by {
            assert(numbers(out).contains(out[i].no));
            assert(numbers(arrivals).contains(out[i].no));
            let m = choose|m: int|
                0 <= m < arrivals.len() && #[trigger] arrivals[m].no == out[i].no;
            assert(arrivals[lowest].no <= arrivals[m].no);
        }
    } else {
        assert(out[k].no != u32::MAX);
    }
    let tally = ReceiverState::fresh(deadline).take_all(arrivals).drained();
    let low = choose|i: int| 0 <= i < arrivals.len() && (#[trigger] arrivals[i]).no == tally.min_n;
    let high = choose|i: int| 0 <= i < arrivals.len() && (#[trigger] arrivals[i]).no == tally.max_n;
    assert(arrivals[lowest].no <= arrivals[low].no);
    assert(arrivals[high].no <= arrivals[highest].no);
    assert(tally.min_n <= arrivals[lowest].no);
    assert(arrivals[highest].no <= tally.max_n);
}

/// The numbers of `arrivals` whose first copy was under way for at least `from`
/// and less than `to` nanoseconds.
pub open spec fn under_way_between(arrivals: Seq<Packet>, from: int, to: int) -> Set<u32> {
    Set::new(
        |n: u32|
            numbers(arrivals).contains(n) && from <= with_number(
                arrivals,
                n,
            )[0].rtt4.total_nanos() < to,
    )
}

/// The numbers of `packets` whose first copy falls into bracket `b`.
spec fn numbers_in_bracket(packets: Seq<Packet>, b: int) -> Set<u32> {
    Set::new(
        |n: u32|
            numbers(packets).contains(n) && stats::rtt4_bracket(
                with_number(packets, n)[0].rtt4.total_nanos(),
            ) == b,
    )
}

/// `with_number` finds nothing where the number does not occur.
proof fn lemma_with_number_of_absent(packets: Seq<Packet>, no: u32)
    requires
        !numbers(packets).contains(no),
    ensures
        with_number(packets, no).len() == 0,
    decreases packets.len(),
{
    if packets.len() > 0 {
        let shorter = packets.drop_last();
        assert(packets[packets.len() - 1] == packets.last());
        assert(!numbers(shorter).contains(no)) by {
            if numbers(shorter).contains(no) {
                let i = choose|i: int| 0 <= i < shorter.len() && #[trigger] shorter[i].no == no;
                assert(packets[i].no == no);
            }
        }
        lemma_with_number_of_absent(shorter, no);
    }
}

/// The brackets of packets that come in the order of their numbers.
proof fn lemma_brackets_in_order(packets: Seq<Packet>, b: int)
    requires
        in_number_order(packets),
        packets.len() > 0 ==> packets[0].no != u32::MAX,
        0 <= b < 6,
    ensures
        numbers_in_bracket(packets, b).finite(),
        Tally::empty().analyse_all(packets).rtt4stats[b] == numbers_in_bracket(packets, b).len(),
    decreases packets.len(),
{
    let set = numbers_in_bracket(packets, b);
    if packets.len() == 0 {
        assert(set =~= Set::empty());
    } else {
        let shorter = packets.drop_last();
        let p = packets.last();
        let fewer = numbers_in_bracket(shorter, b);
        assert(packets[packets.len() - 1] == p);
        assert forall|i: int, j: int| 0 <= i <= j < shorter.len() implies (#[trigger] shorter[i]).no
            <= (#[trigger] shorter[j]).no by {
            assert(shorter[i] == packets[i] && shorter[j] == packets[j]);
        }
        lemma_brackets_in_order(shorter, b);
        stats::lemma_last_number(shorter);
        assert forall|n: u32| numbers(packets).contains(n) <==> #[trigger] numbers(
            shorter,
        ).contains(n) || n == p.no by {
            if numbers(packets).contains(n) {
                let i = choose|i: int| 0 <= i < packets.len() && #[trigger] packets[i].no == n;
                if i < shorter.len() {
                    assert(shorter[i].no == n);
                }
            }
            if numbers(shorter).contains(n) {
                let i = choose|i: int| 0 <= i < shorter.len() && #[trigger] shorter[i].no == n;
                assert(packets[i].no == n);
            }
        }
        if shorter.len() > 0 && shorter.last().no == p.no {
            assert(shorter[shorter.len() - 1].no == p.no);
            assert(numbers(shorter).contains(p.no));
            lemma_with_number_finds(shorter, shorter.len() - 1, shorter.len() - 1);
            assert forall|n: u32| set.contains(n) <==> #[trigger] fewer.contains(n) by {
                if n == p.no {
                    assert(with_number(packets, n)[0] == with_number(shorter, n)[0]);
                }
            }
            assert(set =~= fewer);
        } else {
            assert(!numbers(shorter).contains(p.no)) by {
                if numbers(shorter).contains(p.no) {
                    let i = choose|i: int|
                        0 <= i < shorter.len() && #[trigger] shorter[i].no == p.no;
                    assert(shorter[i].no <= shorter[shorter.len() - 1].no);
                    assert(packets[packets.len() - 2].no <= packets[packets.len() - 1].no);
                    assert(shorter[shorter.len() - 1] == packets[packets.len() - 2]);
                }
            }
            lemma_with_number_of_absent(shorter, p.no);
            assert(with_number(packets, p.no)[0] == p);
            assert(!fewer.contains(p.no));
            if stats::rtt4_bracket(p.rtt4.total_nanos()) == b {
                assert(set =~= fewer.insert(p.no));
            } else {
                assert(set =~= fewer);
            }
        }
    }
}

/// As long as no reply comes after more than 1022 with higher numbers, the
/// summary counts each number that came once, however often it came, and puts it
/// into the bracket of the time that its first copy was under way: the edges are
/// at 0, 50, 180, 400, 1000 and 2000 milliseconds. Its bad loss is the sum of the
/// steps of more than 50 between neighbours among the numbers that came.
pub proof fn law_summary_of_replies(
    deadline: TimeSpan,
    arrivals: Seq<Packet>,
    summary: Option<Summary>,
)
    requires
        few_overtakings(arrivals),
        summary is Some,
        stats::summarises(summary, ReceiverState::fresh(deadline).take_all(arrivals).drained()),
        forall|i: int| 0 <= i < arrivals.len() ==> (#[trigger] arrivals[i]).rtt4.wf(),
    ensures
        summary->0.received == numbers(arrivals).len(),
        summary->0.badloss == long_steps(numbers(arrivals), 0xffff_ffff),
        summary->0.rtt4stats@[0] == under_way_between(arrivals, 0, 50_000_000).len(),
        summary->0.rtt4stats@[1] == under_way_between(arrivals, 50_000_000, 180_000_000).len(),
        summary->0.rtt4stats@[2] == under_way_between(arrivals, 180_000_000, 400_000_000).len(),
        summary->0.rtt4stats@[3] == under_way_between(arrivals, 400_000_000, 1_000_000_000).len(),
        summary->0.rtt4stats@[4] == under_way_between(
            arrivals,
            1_000_000_000,
            2_000_000_000,
        ).len(),
        summary->0.rtt4stats@[5] == under_way_between(
            arrivals,
            2_000_000_000,
            (0x1_0000_0000_0000_0000 * 1_000_000_000) as int,
        ).len(),
{
    let out = output(arrivals);
    law_counted_in_output_order(deadline, arrivals);
    lemma_something_counted(out);
    lemma_numbers_of_output(arrivals);
    let k = choose|k: int| 0 <= k < out.len() && (#[trigger] out[k]).no != u32::MAX;
    assert(numbers(out).contains(out[k].no));
    assert(numbers(arrivals).contains(out[k].no));
    let m = choose|m: int| 0 <= m < arrivals.len() && #[trigger] arrivals[m].no == out[k].no;
    assert(arrivals[m].no != u32::MAX);
    law_each_number_counts_once(deadline, arrivals);
    law_bad_loss_is_long_steps(deadline, arrivals);
    lemma_first_out(arrivals);
    law_output_in_order(arrivals);
    lemma_bracket_of_summary(arrivals, 0, 0, 50_000_000);
    lemma_bracket_of_summary(arrivals, 1, 50_000_000, 180_000_000);
    lemma_bracket_of_summary(arrivals, 2, 180_000_000, 400_000_000);
    lemma_bracket_of_summary(arrivals, 3, 400_000_000, 1_000_000_000);
    lemma_bracket_of_summary(arrivals, 4, 1_000_000_000, 2_000_000_000);
    lemma_bracket_of_summary(
        arrivals,
        5,
        2_000_000_000,
        (0x1_0000_0000_0000_0000 * 1_000_000_000) as int,
    );
}

proof fn lemma_bracket_of_summary(arrivals: Seq<Packet>, b: int, from: int, to: int)
    requires
        in_number_order(output(arrivals)),
        output(arrivals).len() > 0,
        output(arrivals)[0].no != u32::MAX,
        0 <= b < 6,
        forall|i: int| 0 <= i < arrivals.len() ==> (#[trigger] arrivals[i]).rtt4.wf(),
        forall|nanos: int|
            0 <= nanos < 0x1_0000_0000_0000_0000 * 1_000_000_000 ==> (
            #[trigger] stats::rtt4_bracket(nanos) == b <==> from <= nanos < to),
    ensures
        Tally::empty().analyse_all(output(arrivals)).rtt4stats[b] == under_way_between(
            arrivals,
            from,
            to,
        ).len(),
{
    let out = output(arrivals);
    lemma_brackets_in_order(out, b);
    lemma_numbers_of_output(arrivals);
    assert forall|n: u32| numbers_in_bracket(out, b).contains(n) <==> #[trigger] under_way_between(
        arrivals,
        from,
        to,
    ).contains(n) by {
        law_copies_keep_their_order(arrivals, n);
        if numbers(arrivals).contains(n) {
            lemma_first_copy_is_an_arrival(arrivals, n);
            let first = with_number(arrivals, n)[0];
            let i = choose|i: int| 0 <= i < arrivals.len() && #[trigger] arrivals[i] == first;
            assert(arrivals[i].rtt4.wf());
            assert(stats::rtt4_bracket(first.rtt4.total_nanos()) == b <==> from
                <= first.rtt4.total_nanos() < to);
        }
    }
    assert(numbers_in_bracket(out, b) =~= under_way_between(arrivals, from, to));
}

proof fn lemma_first_copy_is_an_arrival(packets: Seq<Packet>, no: u32)
    requires
        numbers(packets).contains(no),
    ensures
        with_number(packets, no).len() > 0,
        exists|i: int|
            0 <= i < packets.len() && #[trigger] packets[i] == with_number(packets, no)[0],
    decreases packets.len(),
{
    let shorter = packets.drop_last();
    assert(packets[packets.len() - 1] == packets.last());
    if numbers(shorter).contains(no) {
        lemma_first_copy_is_an_arrival(shorter, no);
        let i = choose|i: int|
            0 <= i < shorter.len() && #[trigger] shorter[i] == with_number(shorter, no)[0];
        assert(packets[i] == with_number(packets, no)[0]);
    } else {
        lemma_with_number_of_absent(shorter, no);
        let i = choose|i: int| 0 <= i < packets.len() && #[trigger] packets[i].no == no;
        if i < shorter.len() {
            assert(shorter[i].no == no);
        }
    }
}

} // verus!
