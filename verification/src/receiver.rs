//! The receiving side of a measurement: until its time is up, every datagram
//! that comes back becomes a packet, goes through the jitter buffer and is
//! counted when it leaves.

#![allow(unused_imports)]

use vstd::prelude::*;

use crate::jitter::{JitterBuffer, JITTER_CAPACITY};
use crate::stats::{Packet, PacketStats, Summary};
use crate::timespan::{TimeSpan, NANOS_PER_SEC};
use crate::wire::{read_header, HEADER_LEN};

use crate::{jitter, stats, timespan, wire};

verus! {

/// The time under way, in seconds, of a packet that claims to come from the future.
pub const FROM_THE_FUTURE_SECS: u64 = 999;

/// The time that a packet sent at `sent_nanos` was under way at `now`.
pub open spec fn time_under_way(now: TimeSpan, sent_nanos: int) -> TimeSpan {
    if now.total_nanos() >= sent_nanos {
        TimeSpan::of_nanos(now.total_nanos() - sent_nanos)
    } else {
        TimeSpan { secs: FROM_THE_FUTURE_SECS, nanos: 0 }
    }
}

/// The packet that the datagram received at `now` stands for.
pub open spec fn packet_of(datagram: Seq<u8>, now: TimeSpan) -> Packet {
    Packet {
        no: wire::header_no(datagram) as u32,
        rtt4: time_under_way(now, wire::header_nanos(datagram) as int),
    }
}

/// A datagram whose header can be read and whose sending time is a span.
pub open spec fn readable(datagram: Seq<u8>) -> bool {
    &&& datagram.len() >= HEADER_LEN
    &&& TimeSpan::representable(wire::header_nanos(datagram) as int)
}

/// Whether the header of a datagram can be read and its sending time is a span.
pub fn is_readable(datagram: &[u8]) -> (can: bool)
    ensures
        can == readable(datagram@),
{
    if datagram.len() < HEADER_LEN {
        return false;
    }
    let header = read_header(datagram);
    header.secs as u128 * 1_000_000_000 + header.nanos as u128 <= u64::MAX as u128 * 1_000_000_000
        + 999_999_999
}

/// The packet that the datagram received at `now` stands for.
pub fn read_packet(datagram: &[u8], now: TimeSpan) -> (p: Packet)
    requires
        readable(datagram@),
        now.wf(),
    ensures
        p == packet_of(datagram@, now),
        p.rtt4.wf(),
{
    let header = read_header(datagram);
    let sent = TimeSpan::new(header.secs, header.nanos);
    if now.is_shorter_than(&sent) {
        Packet { no: header.no, rtt4: TimeSpan::from_secs(FROM_THE_FUTURE_SECS) }
    } else {
        let rtt4 = now.minus(&sent);
        proof {
            timespan::law_span_of_nanos(rtt4.total_nanos(), rtt4);
        }
        Packet { no: header.no, rtt4 }
    }
}

/// The length of time, in nanoseconds, at which a receiver stops that starts at
/// `start` and listens for `duration_seconds`.
pub open spec fn deadline_nanos(start: TimeSpan, duration_seconds: u64) -> int {
    start.total_nanos() + duration_seconds * NANOS_PER_SEC
}

/// A receiver that starts at `start` can listen for `duration_seconds`.
pub open spec fn listenable(start: TimeSpan, duration_seconds: u64) -> bool {
    TimeSpan::representable(deadline_nanos(start, duration_seconds))
}

/// What the receiver has seen.
#[verifier::ext_equal]
pub struct ReceiverState {
    /// When its time is up.
    pub deadline: TimeSpan,
    /// The packets in the jitter buffer, lowest number first.
    pub held: Seq<Packet>,
    /// What is known of the packets that left the jitter buffer.
    pub tally: stats::Tally,
    /// Whether any datagram came back yet.
    pub received_something: bool,
}

impl ReceiverState {
    /// Nothing seen yet.
    pub open spec fn fresh(deadline: TimeSpan) -> ReceiverState {
        ReceiverState {
            deadline,
            held: Seq::empty(),
            tally: stats::Tally::empty(),
            received_something: false,
        }
    }

    /// One more packet came back.
    pub open spec fn take(self, p: Packet) -> ReceiverState {
        ReceiverState {
            held: jitter::held_after(self.held, p),
            tally: self.tally.analyse_all(jitter::released_by(self.held, p)),
            received_something: true,
            ..self
        }
    }

    /// One more packet can be counted.
    pub open spec fn has_room(self) -> bool {
        self.taken() < u32::MAX
    }

    /// What comes of waking up at `now`, with `datagram` if one came in.
    pub open spec fn wakeup(self, now: TimeSpan, datagram: Option<Seq<u8>>) -> Wakeup {
        if now.total_nanos() > self.deadline.total_nanos() {
            Wakeup::Expired
        } else if datagram is None {
            Wakeup::Nothing
        } else {
            Wakeup::Taken { first: !self.received_something }
        }
    }

    /// What was seen after waking up at `now`, with `datagram` if one came in.
    pub open spec fn after_wakeup(self, now: TimeSpan, datagram: Option<Seq<u8>>) -> ReceiverState {
        if now.total_nanos() <= self.deadline.total_nanos() && datagram is Some {
            self.take(packet_of(datagram->0, now))
        } else {
            self
        }
    }

    /// All of `packets` came back, from the first to the last.
    pub open spec fn take_all(self, packets: Seq<Packet>) -> ReceiverState
        decreases packets.len(),
    {
        if packets.len() == 0 {
            self
        } else {
            self.take_all(packets.drop_last()).take(packets.last())
        }
    }

    /// The tally once the packets still held back are counted too.
    pub open spec fn drained(self) -> stats::Tally {
        self.tally.analyse_all(self.held)
    }

    /// How many packets came back so far.
    pub open spec fn taken(self) -> int {
        self.tally.handled() + self.held.len()
    }
}

/// The bytes of a datagram, if there is one.
pub open spec fn bytes_of(datagram: Option<&[u8]>) -> Option<Seq<u8>> {
    match datagram {
        None => None,
        Some(d) => Some(d@),
    }
}

/// What came of waking up.
#[derive(Clone, Copy, Debug, PartialEq, Eq, Structural)]
pub enum Wakeup {
    /// The time is up; whatever came with it is not counted.
    Expired,
    /// No datagram came.
    Nothing,
    /// A datagram was taken in, the first one of all if `first`.
    Taken { first: bool },
}

/// The receiving side of a measurement.
pub struct Receiver {
    deadline: TimeSpan,
    jitter_buffer: JitterBuffer,
    stats: PacketStats,
    received_something: bool,
}

impl View for Receiver {
    type V = ReceiverState;

    closed spec fn view(&self) -> ReceiverState {
        ReceiverState {
            deadline: self.deadline,
            held: self.jitter_buffer@,
            tally: self.stats@,
            received_something: self.received_something,
        }
    }
}

impl Receiver {
    pub open spec fn wf(self) -> bool {
        &&& self@.deadline.wf()
        &&& jitter::in_number_order(self@.held)
        &&& self@.held.len() <= JITTER_CAPACITY
        &&& forall|i: int| 0 <= i < self@.held.len() ==> (#[trigger] self@.held[i]).rtt4.wf()
        &&& self@.tally.wf()
        &&& self@.taken() <= u32::MAX
    }

    /// Whether a receiver that starts at `start` can listen for `duration_seconds`.
    pub fn can_listen(start: TimeSpan, duration_seconds: u64) -> (can: bool)
        requires
            start.wf(),
        ensures
            can == listenable(start, duration_seconds),
    {
        start.secs.checked_add(duration_seconds).is_some()
    }

    /// A receiver that starts at `start` and listens for `duration_seconds`.
    pub fn new(start: TimeSpan, duration_seconds: u64) -> (receiver: Receiver)
        requires
            start.wf(),
            listenable(start, duration_seconds),
        ensures
            receiver.wf(),
            receiver@ == ReceiverState::fresh(
                TimeSpan::of_nanos(deadline_nanos(start, duration_seconds)),
            ),
    {
        let deadline = start.plus(&TimeSpan::from_secs(duration_seconds));
        proof {
            timespan::law_span_of_nanos(deadline.total_nanos(), deadline);
        }
        Receiver {
            deadline,
            jitter_buffer: JitterBuffer::new(),
            stats: PacketStats::new(),
            received_something: false,
        }
    }

    /// Whether the time of the receiver is up.
    pub fn expired(&self, now: TimeSpan) -> (expired: bool)
        requires
            self.wf(),
            now.wf(),
        ensures
            expired == (now.total_nanos() > self@.deadline.total_nanos()),
    {
        self.deadline.is_shorter_than(&now)
    }

    /// Whether one more packet can be counted.
    pub fn has_room(&self) -> (room: bool)
        requires
            self.wf(),
        ensures
            room == self@.has_room(),
    {
        self.stats.handled() + (self.jitter_buffer.len() as u64) < u32::MAX as u64
    }

    /// The receiver woke up at `now`, with the receiving buffer if a datagram
    /// came in.
    pub fn on_wakeup(&mut self, now: TimeSpan, datagram: Option<&[u8]>) -> (wakeup: Wakeup)
        requires
            old(self).wf(),
            now.wf(),
            datagram is Some && now.total_nanos() <= old(self)@.deadline.total_nanos() ==> {
                &&& readable(datagram->0@)
                &&& old(self)@.has_room()
            },
        ensures
            final(self).wf(),
            wakeup == old(self)@.wakeup(now, bytes_of(datagram)),
            final(self)@ == old(self)@.after_wakeup(now, bytes_of(datagram)),
            wakeup is Taken ==> final(self)@.taken() == old(self)@.taken() + 1,
    {
        if self.expired(now) {
            return Wakeup::Expired;
        }
        match datagram {
            None => Wakeup::Nothing,
            Some(d) => {
                let p = read_packet(d, now);
                let first: bool = !self.received_something;
                self.take_packet(p);
                Wakeup::Taken { first }
            },
        }
    }

    /// Puts a packet into the jitter buffer and counts the one that leaves it.
    fn take_packet(&mut self, p: Packet)
        requires
            old(self).wf(),
            p.rtt4.wf(),
            old(self)@.taken() < u32::MAX,
        ensures
            final(self).wf(),
            final(self)@ == old(self)@.take(p),
            final(self)@.taken() == old(self)@.taken() + 1,
    {
        let ghost before = self@;
        proof {
            lemma_spans_of_inserted(before.held, p);
            jitter::law_insert_keeps_order(before.held, p);
        }
        let leaving = self.jitter_buffer.take_in(p);
        proof {
            let all = jitter::insert_by_no(before.held, p);
            if all.len() > JITTER_CAPACITY {
                assert(all.take(1)[0] == all[0]);
                assert forall|i: int| 0 <= i < self@.held.len() implies (#[trigger] self@.held[i])
                    .rtt4.wf() by {
                    assert(self@.held[i] == all[i + 1]);
                }
            }
        }
        if let Some(q) = leaving {
            proof {
                let gone = jitter::released_by(before.held, p);
                assert(gone[0] == q);
                stats::lemma_analyse_one(before.tally, q);
                stats::law_tally_stays_wf(before.tally, q);
            }
            self.stats.analyse_packet(&q);
        }
        self.received_something = true;
        assert(self@ =~= before.take(p));
    }

    /// Counts the packets that are still held back, from the lowest to the
    /// highest, and gives the figures of the measurement.
    pub fn finish(&mut self) -> (summary: Option<Summary>)
        requires
            old(self).wf(),
        ensures
            final(self).wf(),
            final(self)@ == (ReceiverState {
                held: Seq::empty(),
                tally: old(self)@.drained(),
                ..old(self)@
            }),
            stats::summarises(summary, old(self)@.drained()),
    {
        let ghost before = self@;
        loop
            invariant
                self.wf(),
                self@.drained() == before.drained(),
                self@.deadline == before.deadline,
                self@.received_something == before.received_something,
            ensures
                self.wf(),
                self@.held.len() == 0,
                self@.drained() == before.drained(),
                self@.deadline == before.deadline,
                self@.received_something == before.received_something,
            decreases self@.held.len(),
        {
            let ghost here = self@;
            match self.jitter_buffer.pop() {
                Some(p) => {
                    proof {
                        assert(p.rtt4.wf());
                        stats::lemma_analyse_first(here.tally, here.held);
                        stats::law_tally_stays_wf(here.tally, p);
                        assert forall|i: int| 0 <= i < self@.held.len() implies (
                        #[trigger] self@.held[i]).rtt4.wf() by {
                            assert(self@.held[i] == here.held[i + 1]);
                        }
                    }
                    self.stats.analyse_packet(&p);
                },
                None => {
                    break;
                },
            }
        }
        assert(self@.held =~= Seq::empty());
        assert(self@.tally == before.drained());
        self.stats.summary()
    }
}

/// Inserting a packet into others leaves every time under way a proper span.
proof fn lemma_spans_of_inserted(packets: Seq<Packet>, p: Packet)
    requires
        p.rtt4.wf(),
        forall|i: int| 0 <= i < packets.len() ==> (#[trigger] packets[i]).rtt4.wf(),
    ensures
        forall|i: int|
            0 <= i < jitter::insert_by_no(packets, p).len() ==> (
            #[trigger] jitter::insert_by_no(packets, p)[i]).rtt4.wf(),
    decreases packets.len(),
{
    if packets.len() > 0 && packets.last().no > p.no {
        let shorter = packets.drop_last();
        assert forall|i: int| 0 <= i < shorter.len() implies (#[trigger] shorter[i]).rtt4.wf() by {
            assert(shorter[i] == packets[i]);
        }
        lemma_spans_of_inserted(shorter, p);
        let inner = jitter::insert_by_no(shorter, p);
        let all = jitter::insert_by_no(packets, p);
        assert forall|i: int| 0 <= i < all.len() implies (#[trigger] all[i]).rtt4.wf() by {
            if i < inner.len() {
                assert(all[i] == inner[i]);
            }
        }
    }
}

} // verus!
