//! The sending side of a measurement: in every round one datagram goes to each
//! destination, and rounds follow each other at a steady pace.

#![allow(unused_imports)]

use vstd::prelude::*;

use crate::timespan::{TimeSpan, NANOS_PER_SEC};
use crate::wire::{number_datagram, stamp_datagram, HEADER_LEN};

use crate::{timespan, wire};

verus! {

/// How long the sender waits for the receiver to get ready, in nanoseconds.
pub const WARM_UP_NANOS: u64 = 500_000_000;

/// How many rounds a measurement has.
pub open spec fn round_count(packets_per_second: u32, duration_seconds: u64) -> int {
    packets_per_second * duration_seconds
}

/// The time from one round to the next, in nanoseconds.
pub open spec fn round_step(packets_per_second: u32) -> int {
    NANOS_PER_SEC as int / packets_per_second as int
}

/// A measurement that can be sent: there is a pace, the numbers of its datagrams
/// fit into 32 bits, the datagrams hold what is written into them, and the last
/// round is due at a point in time that is a span.
pub open spec fn sendable(
    packet_size: int,
    packets_per_second: u32,
    duration_seconds: u64,
    destinations: int,
    start: TimeSpan,
) -> bool {
    let rounds = round_count(packets_per_second, duration_seconds);
    &&& packets_per_second > 0
    &&& rounds <= u32::MAX
    &&& rounds * destinations <= u32::MAX
    &&& rounds > 0 ==> {
        &&& packet_size >= 12
        &&& TimeSpan::representable(
            start.total_nanos() + round_step(packets_per_second) * (rounds - 1),
        )
    }
    &&& rounds > 0 && destinations > 0 ==> packet_size >= HEADER_LEN
}

/// A datagram and the destination that it goes to.
pub struct Sent {
    pub to: int,
    pub datagram: Seq<u8>,
}

/// How far the sender has come.
#[verifier::ext_equal]
pub struct SenderState {
    /// When round 0 is due.
    pub start: TimeSpan,
    /// The time from one round to the next, in nanoseconds.
    pub step: int,
    /// How many rounds there are.
    pub rounds: int,
    /// How many destinations there are.
    pub destinations: int,
    /// How many rounds have begun.
    pub round: int,
    /// How many destinations were served in the round that began last.
    pub served: int,
    /// The number of the next datagram.
    pub totalctr: int,
    /// The datagram as it was sent last.
    pub datagram: Seq<u8>,
}

impl SenderState {
    /// Nothing sent yet.
    pub open spec fn fresh(
        packet_size: int,
        packets_per_second: u32,
        duration_seconds: u64,
        destinations: int,
        start: TimeSpan,
    ) -> SenderState {
        SenderState {
            start,
            step: round_step(packets_per_second),
            rounds: round_count(packets_per_second, duration_seconds),
            destinations,
            round: 0,
            served: destinations,
            totalctr: 0,
            datagram: Seq::new(packet_size as nat, |i: int| 0u8),
        }
    }

    /// When the next round is due, in nanoseconds.
    pub open spec fn due(self) -> int {
        self.start.total_nanos() + self.step * self.round
    }

    /// The round that began last has served every destination.
    pub open spec fn round_complete(self) -> bool {
        self.served == self.destinations
    }

    /// What is to be done at `now`, before the next round.
    pub open spec fn pacing(self, now: TimeSpan) -> Pacing {
        if self.round == self.rounds {
            Pacing::Finished
        } else if now.total_nanos() < self.due() {
            Pacing::SleepFirst(TimeSpan::of_nanos(self.due() - now.total_nanos()))
        } else {
            Pacing::SendNow
        }
    }

    /// The destination that is served next in the round, if there is one left.
    pub open spec fn next_to(self) -> Option<int> {
        if self.round_complete() {
            None
        } else {
            Some(self.served)
        }
    }

    /// The next round begins at `now`.
    pub open spec fn begin(self, now: TimeSpan) -> SenderState {
        SenderState {
            round: self.round + 1,
            served: 0,
            datagram: wire::stamped(self.datagram, now),
            ..self
        }
    }

    /// The next destination of the round is served.
    pub open spec fn serve(self) -> SenderState {
        SenderState {
            served: self.served + 1,
            totalctr: self.totalctr + 1,
            datagram: wire::numbered(self.datagram, self.totalctr as u32),
            ..self
        }
    }

    /// The next `n` destinations of the round are served.
    pub open spec fn serve_many(self, n: nat) -> SenderState
        decreases n,
    {
        if n == 0 {
            self
        } else {
            self.serve_many((n - 1) as nat).serve()
        }
    }

    /// What is sent when the next `n` destinations of the round are served.
    pub open spec fn sent_to_many(self, n: nat) -> Seq<Sent>
        decreases n,
    {
        if n == 0 {
            Seq::empty()
        } else {
            self.sent_to_many((n - 1) as nat).push(
                Sent {
                    to: self.serve_many((n - 1) as nat).served,
                    datagram: self.serve_many(n).datagram,
                },
            )
        }
    }

    /// One whole round for every reading of the clock.
    pub open spec fn run(self, clock: Seq<TimeSpan>) -> SenderState
        decreases clock.len(),
    {
        if clock.len() == 0 {
            self
        } else {
            self.run(clock.drop_last()).begin(clock.last()).serve_many(self.destinations as nat)
        }
    }

    /// What is sent in one whole round for every reading of the clock.
    pub open spec fn sent(self, clock: Seq<TimeSpan>) -> Seq<Sent>
        decreases clock.len(),
    {
        if clock.len() == 0 {
            Seq::empty()
        } else {
            self.sent(clock.drop_last()) + self.run(clock.drop_last()).begin(
                clock.last(),
            ).sent_to_many(self.destinations as nat)
        }
    }

    /// What holds at every moment of a measurement.
    pub open spec fn wf(self) -> bool {
        &&& self.start.wf()
        &&& 0 <= self.step
        &&& 0 <= self.round <= self.rounds
        &&& 0 <= self.served <= self.destinations
        &&& self.rounds * self.destinations <= u32::MAX
        &&& 0 <= self.totalctr
        &&& self.totalctr == (self.round - 1) * self.destinations + self.served
        &&& self.step * self.rounds <= u64::MAX
        &&& self.rounds > 0 ==> {
            &&& TimeSpan::representable(self.start.total_nanos() + self.step * (self.rounds - 1))
            &&& self.datagram.len() >= 12
        }
        &&& self.rounds > 0 && self.destinations > 0 ==> self.datagram.len() >= HEADER_LEN
    }
}

/// What is to be done before a round.
#[derive(Clone, Copy, Debug, PartialEq, Eq, Structural)]
pub enum Pacing {
    /// There is no further round.
    Finished,
    /// The round is due: send at once.
    SendNow,
    /// The round is not due yet: sleep first.
    SleepFirst(TimeSpan),
}

/// The sending side of a measurement.
pub struct Sender {
    start: TimeSpan,
    step: u64,
    rounds: u32,
    destinations: usize,
    round: u32,
    served: usize,
    totalctr: u32,
    datagram: Vec<u8>,
}

impl View for Sender {
    type V = SenderState;

    closed spec fn view(&self) -> SenderState {
        SenderState {
            start: self.start,
            step: self.step as int,
            rounds: self.rounds as int,
            destinations: self.destinations as int,
            round: self.round as int,
            served: self.served as int,
            totalctr: self.totalctr as int,
            datagram: self.datagram@,
        }
    }
}

impl Sender {
    /// Whether such a measurement can be sent.
    pub fn can_send(
        packet_size: usize,
        packets_per_second: u32,
        duration_seconds: u64,
        destinations: usize,
        start: TimeSpan,
    ) -> (can: bool)
        requires
            start.wf(),
        ensures
            can == sendable(
                packet_size as int,
                packets_per_second,
                duration_seconds,
                destinations as int,
                start,
            ),
    {
        if packets_per_second == 0 {
            return false;
        }
        proof {
            lemma_product_bound(
                packets_per_second as int,
                u32::MAX as int,
                duration_seconds as int,
                u64::MAX as int,
            );
        }
        let rounds: u128 = packets_per_second as u128 * duration_seconds as u128;
        if rounds > u32::MAX as u128 {
            return false;
        }
        proof {
            lemma_product_bound(
                rounds as int,
                u32::MAX as int,
                destinations as int,
                u64::MAX as int,
            );
        }
        if rounds * destinations as u128 > u32::MAX as u128 {
            return false;
        }
        if rounds == 0 {
            return true;
        }
        let step: u128 = (NANOS_PER_SEC / packets_per_second) as u128;
        proof {
            lemma_product_bound(step as int, NANOS_PER_SEC as int, rounds - 1, u32::MAX as int);
        }
        let last_due: u128 = start.secs as u128 * 1_000_000_000 + start.nanos as u128 + step
            * (rounds - 1);
        packet_size >= 12 && last_due <= u64::MAX as u128 * 1_000_000_000 + 999_999_999
            && (destinations == 0 || packet_size >= HEADER_LEN)
    }

    /// A sender of datagrams of `packet_size` bytes whose round 0 is due at
    /// `start`.
    pub fn new(
        packet_size: usize,
        packets_per_second: u32,
        duration_seconds: u64,
        destinations: usize,
        start: TimeSpan,
    ) -> (sender: Sender)
        requires
            start.wf(),
            sendable(
                packet_size as int,
                packets_per_second,
                duration_seconds,
                destinations as int,
                start,
            ),
        ensures
            sender@.wf(),
            sender@ == SenderState::fresh(
                packet_size as int,
                packets_per_second,
                duration_seconds,
                destinations as int,
                start,
            ),
    {
        proof {
            lemma_duration_fits(packets_per_second, duration_seconds);
        }
        let duration: u32 = duration_seconds as u32;
        let rounds: u32 = packets_per_second * duration;
        let step: u64 = (NANOS_PER_SEC / packets_per_second) as u64;
        let mut datagram: Vec<u8> = Vec::new();
        datagram.resize(packet_size, 0);
        let sender = Sender {
            start,
            step,
            rounds,
            destinations,
            round: 0,
            served: destinations,
            totalctr: 0,
            datagram,
        };
        proof {
            lemma_steps_fit(packets_per_second as int, duration as int);
            assert(sender@.datagram =~= Seq::new(packet_size as nat, |i: int| 0u8));
            assert((0 - 1) * destinations + destinations == 0) by (nonlinear_arith);
        }
        sender
    }

    /// Begins the next round at `now`: the datagram bears this time, even if the
    /// round is not due yet.
    pub fn start_round(&mut self, now: TimeSpan) -> (pacing: Pacing)
        requires
            old(self)@.wf(),
            old(self)@.round_complete(),
            now.wf(),
        ensures
            final(self)@.wf(),
            pacing == old(self)@.pacing(now),
            final(self)@ == if pacing is Finished {
                old(self)@
            } else {
                old(self)@.begin(now)
            },
    {
        if self.round == self.rounds {
            return Pacing::Finished;
        }
        let ghost before = self@;
        proof {
            lemma_due_fits(before);
        }
        let deadline = self.start.plus(&TimeSpan::from_nanos(self.step * self.round as u64));
        stamp_datagram(&mut self.datagram, now);
        self.round = self.round + 1;
        self.served = 0;
        proof {
            assert(before.round * before.destinations == (before.round - 1) * before.destinations
                + before.destinations) by (nonlinear_arith);
            assert(self@ =~= before.begin(now));
        }
        if now.is_shorter_than(&deadline) {
            let pause = deadline.minus(&now);
            proof {
                timespan::law_span_of_nanos(pause.total_nanos(), pause);
            }
            Pacing::SleepFirst(pause)
        } else {
            Pacing::SendNow
        }
    }

    /// Numbers the datagram for the next destination of the round and says which
    /// one that is, or `None` if every destination was served.
    pub fn next_destination(&mut self) -> (to: Option<usize>)
        requires
            old(self)@.wf(),
        ensures
            final(self)@.wf(),
            match to {
                None => old(self)@.next_to() is None && final(self)@ == old(self)@,
                Some(k) => {
                    &&& old(self)@.next_to() == Some(k as int)
                    &&& final(self)@ == old(self)@.serve()
                },
            },
    {
        if self.served == self.destinations {
            return None;
        }
        let ghost before = self@;
        proof {
            lemma_number_fits(before);
        }
        number_datagram(&mut self.datagram, self.totalctr);
        let to: usize = self.served;
        self.served = self.served + 1;
        self.totalctr = self.totalctr + 1;
        assert(self@ =~= before.serve());
        Some(to)
    }

    /// The datagram to send.
    pub fn datagram(&self) -> (datagram: &[u8])
        ensures
            datagram@ == self@.datagram,
    {
        self.datagram.as_slice()
    }
}

/// Rounds follow each other at the pace asked for, to the nanosecond below it,
/// and every round is due before the time for sending is over.
pub proof fn law_pace(packets_per_second: u32, duration_seconds: u64, round: int)
    requires
        packets_per_second > 0,
        0 <= round < round_count(packets_per_second, duration_seconds),
    ensures
        round_step(packets_per_second) * packets_per_second <= 1_000_000_000,
        (round_step(packets_per_second) + 1) * packets_per_second > 1_000_000_000,
        round_step(packets_per_second) * round < duration_seconds * 1_000_000_000,
{
    let pps = packets_per_second as int;
    let duration = duration_seconds as int;
    let step = round_step(packets_per_second);
    let rest = NANOS_PER_SEC as int % pps;
    vstd::arithmetic::div_mod::lemma_fundamental_div_mod(NANOS_PER_SEC as int, pps);
    vstd::arithmetic::div_mod::lemma_div_pos_is_pos(NANOS_PER_SEC as int, pps);
    assert(step * pps <= NANOS_PER_SEC && (step + 1) * pps > NANOS_PER_SEC) by (nonlinear_arith)
        requires
            NANOS_PER_SEC as int == pps * step + rest,
            0 <= rest < pps,
    ;
    assert(duration > 0) by (nonlinear_arith)
        requires
            0 < pps * duration,
            0 < pps,
    ;
    if step == 0 {
        assert(step * round == 0);
    } else {
        assert(step * round < (step * pps) * duration) by (nonlinear_arith)
            requires
                0 < step,
                round < pps * duration,
        ;
        assert((step * pps) * duration <= duration * NANOS_PER_SEC) by (nonlinear_arith)
            requires
                step * pps <= NANOS_PER_SEC,
                0 < duration,
        ;
    }
}

/// Once every round is complete, as many datagrams were sent as there are
/// rounds and destinations.
pub proof fn law_finished_sender_sent_all(state: SenderState)
    requires
        state.wf(),
        state.round == state.rounds,
        state.round_complete(),
    ensures
        state.totalctr == state.rounds * state.destinations,
{
    assert((state.rounds - 1) * state.destinations + state.destinations == state.rounds
        * state.destinations) by (nonlinear_arith);
}

/// A run of rounds sends one datagram to each destination in each round, in
/// the same order in every round. The datagrams are numbered in 32 bits, one
/// after the other from 0, and each bears the time at which its round began.
pub proof fn law_run_sends_everything(
    packet_size: int,
    packets_per_second: u32,
    duration_seconds: u64,
    destinations: int,
    start: TimeSpan,
    clock: Seq<TimeSpan>,
    round: int,
    to: int,
)
    requires
        packet_size >= HEADER_LEN,
        0 <= round < clock.len(),
        0 <= to < destinations,
    ensures
        ({
            let fresh = SenderState::fresh(
                packet_size,
                packets_per_second,
                duration_seconds,
                destinations,
                start,
            );
            let no = round * destinations + to;
            &&& fresh.run(clock).totalctr == clock.len() * destinations
            &&& fresh.sent(clock).len() == clock.len() * destinations
            &&& 0 <= no < clock.len() * destinations
            &&& fresh.sent(clock)[no] == (Sent {
                to,
                datagram: wire::numbered(
                    wire::stamped(fresh.datagram, clock[round]),
                    no as u32,
                ),
            })
        }),
{
    let fresh = SenderState::fresh(
        packet_size,
        packets_per_second,
        duration_seconds,
        destinations,
        start,
    );
    lemma_run(fresh, clock);
    lemma_sent(fresh, clock, round, to);
}

/// A run that breaks off after `round` whole rounds and `served` destinations of
/// the next one has sent the beginning of what the whole run sends: the same
/// datagrams to the same destinations in the same order, and nothing else.
pub proof fn law_broken_off_run_sent_a_beginning(
    sender: SenderState,
    clock: Seq<TimeSpan>,
    round: int,
    served: int,
)
    requires
        0 <= round < clock.len(),
        0 <= served <= sender.destinations,
    ensures
        sender.sent(clock).len() == clock.len() * sender.destinations,
        0 <= round * sender.destinations + served <= clock.len() * sender.destinations,
        sender.sent(clock.take(round)) + sender.run(clock.take(round)).begin(
            clock[round],
        ).sent_to_many(served as nat) == sender.sent(clock).take(
            round * sender.destinations + served,
        ),
    decreases clock.len(),
{
    let d = sender.destinations;
    let earlier = clock.drop_last();
    let count = round * d + served;
    lemma_sent_len(sender, clock);
    lemma_sent_len(sender, earlier);
    assert(0 <= round * d + served <= (round + 1) * d <= clock.len() * d) by (nonlinear_arith)
        requires
            0 <= round < clock.len(),
            0 <= served <= d,
    ;
    if round < earlier.len() {
        law_broken_off_run_sent_a_beginning(sender, earlier, round, served);
        assert(earlier.take(round) =~= clock.take(round));
        assert(sender.sent(clock).take(count) =~= sender.sent(earlier).take(count));
    } else {
        let begun = sender.run(earlier).begin(clock.last());
        lemma_sent_to_many_beginning(begun, served as nat, d as nat);
        assert(clock.take(round) =~= earlier);
        assert(sender.sent(clock).take(count) =~= sender.sent(earlier) + begun.sent_to_many(
            d as nat,
        ).take(served));
    }
}

proof fn lemma_sent_len(sender: SenderState, clock: Seq<TimeSpan>)
    requires
        0 <= sender.destinations,
    ensures
        sender.sent(clock).len() == clock.len() * sender.destinations,
    decreases clock.len(),
{
    let d = sender.destinations;
    if clock.len() == 0 {
        assert(0 * d == 0);
    } else {
        lemma_sent_len(sender, clock.drop_last());
        lemma_sent_to_many_beginning(
            sender.run(clock.drop_last()).begin(clock.last()),
            0,
            d as nat,
        );
        assert((clock.len() - 1) * d + d == clock.len() * d) by (nonlinear_arith);
    }
}

/// Serving fewer destinations sends the beginning of what serving more sends.
proof fn lemma_sent_to_many_beginning(begun: SenderState, fewer: nat, more: nat)
    requires
        fewer <= more,
    ensures
        begun.sent_to_many(more).len() == more,
        begun.sent_to_many(more).take(fewer as int) == begun.sent_to_many(fewer),
    decreases more,
{
    if more == 0 {
        assert(begun.sent_to_many(more).take(0) =~= begun.sent_to_many(fewer));
    } else if fewer < more {
        lemma_sent_to_many_beginning(begun, fewer, (more - 1) as nat);
        assert(begun.sent_to_many(more).take(fewer as int) =~= begun.sent_to_many(
            (more - 1) as nat,
        ).take(fewer as int));
    } else {
        lemma_sent_to_many_beginning(begun, (more - 1) as nat, (more - 1) as nat);
        assert(begun.sent_to_many(more).take(fewer as int) =~= begun.sent_to_many(fewer));
    }
}

/// The datagram of a later round differs from a fresh one in nothing but its
/// header.
proof fn lemma_run(fresh: SenderState, clock: Seq<TimeSpan>)
    requires
        fresh.datagram.len() >= HEADER_LEN,
        fresh.totalctr == 0,
        fresh.destinations >= 0,
    ensures
        fresh.run(clock).destinations == fresh.destinations,
        fresh.run(clock).totalctr == clock.len() * fresh.destinations,
        fresh.run(clock).datagram.len() == fresh.datagram.len(),
        fresh.run(clock).datagram.skip(16) == fresh.datagram.skip(16),
        fresh.sent(clock).len() == clock.len() * fresh.destinations,
    decreases clock.len(),
{
    if clock.len() == 0 {
        assert(0 * fresh.destinations == 0);
    } else {
        lemma_run(fresh, clock.drop_last());
        let begun = fresh.run(clock.drop_last()).begin(clock.last());
        wire::lemma_stamped(fresh.run(clock.drop_last()).datagram, clock.last());
        lemma_serve_many(begun, fresh.destinations as nat);
        assert((clock.len() - 1) * fresh.destinations + fresh.destinations == clock.len()
            * fresh.destinations) by (nonlinear_arith);
    }
}

proof fn lemma_sent(fresh: SenderState, clock: Seq<TimeSpan>, round: int, to: int)
    requires
        fresh.datagram.len() >= HEADER_LEN,
        fresh.totalctr == 0,
        0 <= round < clock.len(),
        0 <= to < fresh.destinations,
    ensures
        0 <= round * fresh.destinations + to < clock.len() * fresh.destinations,
        fresh.sent(clock)[round * fresh.destinations + to] == (Sent {
            to,
            datagram: wire::numbered(
                wire::stamped(fresh.datagram, clock[round]),
                (round * fresh.destinations + to) as u32,
            ),
        }),
    decreases clock.len(),
{
    let d = fresh.destinations;
    let earlier = clock.drop_last();
    let no = round * d + to;
    lemma_run(fresh, earlier);
    assert(0 <= round * d + to < clock.len() * d) by (nonlinear_arith)
        requires
            0 <= round <= clock.len() - 1,
            0 <= to < d,
    ;
    if round < earlier.len() {
        lemma_sent(fresh, earlier, round, to);
        assert(fresh.sent(clock)[no] == fresh.sent(earlier)[no]);
    } else {
        let begun = fresh.run(earlier).begin(clock.last());
        wire::lemma_stamped(fresh.run(earlier).datagram, clock.last());
        lemma_serve_many(begun, d as nat);
        lemma_sent_to_many(begun, d as nat, to);
        wire::lemma_same_payload(
            fresh.run(earlier).datagram,
            fresh.datagram,
            clock.last(),
            no as u32,
        );
        assert(fresh.sent(clock)[no] == begun.sent_to_many(d as nat)[to]);
    }
}

proof fn lemma_serve_many(begun: SenderState, n: nat)
    requires
        begun.datagram.len() >= HEADER_LEN,
        begun.served == 0,
    ensures
        begun.serve_many(n).destinations == begun.destinations,
        begun.serve_many(n).served == n,
        begun.serve_many(n).totalctr == begun.totalctr + n,
        begun.serve_many(n).datagram == if n == 0 {
            begun.datagram
        } else {
            wire::numbered(begun.datagram, (begun.totalctr + n - 1) as u32)
        },
        begun.serve_many(n).datagram.len() == begun.datagram.len(),
        begun.serve_many(n).datagram.skip(16) == begun.datagram.skip(16),
        begun.sent_to_many(n).len() == n,
    decreases n,
{
    if n > 0 {
        let m = (n - 1) as nat;
        lemma_serve_many(begun, m);
        wire::lemma_numbered(begun.datagram, (begun.totalctr + m) as u32);
        if m > 0 {
            wire::lemma_numbered_again(
                begun.datagram,
                (begun.totalctr + m - 1) as u32,
                (begun.totalctr + m) as u32,
            );
        }
    }
}

proof fn lemma_sent_to_many(begun: SenderState, n: nat, to: int)
    requires
        begun.datagram.len() >= HEADER_LEN,
        begun.served == 0,
        0 <= to < n,
    ensures
        begun.sent_to_many(n)[to] == (Sent {
            to,
            datagram: wire::numbered(begun.datagram, (begun.totalctr + to) as u32),
        }),
    decreases n,
{
    let m = (n - 1) as nat;
    lemma_serve_many(begun, m);
    lemma_serve_many(begun, n);
    if to < m {
        lemma_sent_to_many(begun, m, to);
    }
}

proof fn lemma_product_bound(a: int, a_max: int, b: int, b_max: int)
    requires
        0 <= a <= a_max,
        0 <= b <= b_max,
    ensures
        0 <= a * b <= a_max * b_max,
{
    assert(0 <= a * b <= a_max * b_max) by (nonlinear_arith)
        requires
            0 <= a <= a_max,
            0 <= b <= b_max,
    ;
}

proof fn lemma_duration_fits(packets_per_second: u32, duration_seconds: u64)
    requires
        packets_per_second > 0,
        round_count(packets_per_second, duration_seconds) <= u32::MAX,
    ensures
        duration_seconds <= u32::MAX,
{
    assert(duration_seconds <= packets_per_second * duration_seconds) by (nonlinear_arith)
        requires
            packets_per_second > 0,
    ;
}

proof fn lemma_steps_fit(pps: int, duration: int)
    requires
        0 < pps,
        0 <= duration <= u32::MAX,
    ensures
        0 <= (NANOS_PER_SEC as int / pps) * (pps * duration) <= NANOS_PER_SEC * u32::MAX,
{
    let step = NANOS_PER_SEC as int / pps;
    vstd::arithmetic::div_mod::lemma_fundamental_div_mod(NANOS_PER_SEC as int, pps);
    assert(step >= 0) by {
        vstd::arithmetic::div_mod::lemma_div_pos_is_pos(NANOS_PER_SEC as int, pps);
    }
    assert(step * pps <= NANOS_PER_SEC) by (nonlinear_arith)
        requires
            NANOS_PER_SEC as int == pps * step + (NANOS_PER_SEC as int % pps),
            NANOS_PER_SEC as int % pps >= 0,
    ;
    assert(step * (pps * duration) == (step * pps) * duration) by (nonlinear_arith);
    assert(0 <= (step * pps) * duration <= NANOS_PER_SEC * u32::MAX) by (nonlinear_arith)
        requires
            0 <= step * pps <= NANOS_PER_SEC,
            0 <= duration <= u32::MAX,
    ;
}

proof fn lemma_due_fits(state: SenderState)
    requires
        state.wf(),
        state.round < state.rounds,
    ensures
        0 <= state.step * state.round <= u64::MAX,
        TimeSpan::representable(state.due()),
{
    assert(0 <= state.step * state.round <= state.step * (state.rounds - 1) <= state.step
        * state.rounds) by (nonlinear_arith)
        requires
            0 <= state.step,
            0 <= state.round <= state.rounds - 1,
    ;
}

proof fn lemma_number_fits(state: SenderState)
    requires
        state.wf(),
        !state.round_complete(),
    ensures
        0 <= state.totalctr < u32::MAX,
        state.rounds > 0,
        state.destinations > 0,
{
    assert(state.round > 0) by (nonlinear_arith)
        requires
            0 <= state.round,
            0 <= (state.round - 1) * state.destinations + state.served,
            state.served < state.destinations,
    ;
    assert((state.round - 1) * state.destinations + state.destinations <= state.rounds
        * state.destinations) by (nonlinear_arith)
        requires
            state.round <= state.rounds,
            0 <= state.destinations,
    ;
}

/// Every second of sending adds as many rounds as datagrams go to a destination in
/// a second, and without any time for sending there is no round.
pub proof fn law_rounds_grow_with_time(packets_per_second: u32, duration_seconds: u64)
    ensures
        round_count(packets_per_second, 0) == 0,
        duration_seconds > 0 ==> round_count(packets_per_second, duration_seconds) == round_count(
            packets_per_second,
            (duration_seconds - 1) as u64,
        ) + packets_per_second,
{
    let p = packets_per_second as int;
    let t = duration_seconds as int;
    assert(p * t == p * (t - 1) + p) by (nonlinear_arith);
    assert(p * 0 == 0);
}

/// In a measurement that can be sent every datagram holds a header and has a
/// number of 32 bits of its own, and every round is due at a point in time that is
/// a span.
pub proof fn law_sendable_means_that_all_fits(
    packet_size: int,
    packets_per_second: u32,
    duration_seconds: u64,
    destinations: int,
    start: TimeSpan,
    round: int,
    to: int,
)
    requires
        sendable(packet_size, packets_per_second, duration_seconds, destinations, start),
        0 <= round < round_count(packets_per_second, duration_seconds),
        0 <= to < destinations,
        start.wf(),
    ensures
        packets_per_second > 0,
        packet_size >= 16,
        0 <= round * destinations + to < 0xffff_ffff,
        exists|due: TimeSpan|
            due.wf() && #[trigger] due.total_nanos() == start.total_nanos() + round_step(
                packets_per_second,
            ) * round,
{
    let rounds = round_count(packets_per_second, duration_seconds);
    let step = round_step(packets_per_second);
    vstd::arithmetic::div_mod::lemma_div_pos_is_pos(
        NANOS_PER_SEC as int,
        packets_per_second as int,
    );
    assert(0 <= round * destinations + to < rounds * destinations) by (nonlinear_arith)
        requires
            0 <= round < rounds,
            0 <= to < destinations,
    ;
    assert(0 <= step * round <= step * (rounds - 1)) by (nonlinear_arith)
        requires
            0 <= step,
            0 <= round <= rounds - 1,
    ;
    timespan::law_representable_lengths(start.total_nanos() + step * (rounds - 1));
    timespan::law_representable_lengths(start.total_nanos() + step * round);
}

/// A measurement can be sent as soon as there is a pace, its datagrams hold a
/// header, or a time if there is no destination to number them for, all of its
/// numbers have 32 bits, and its last round is due at a point in time that is a
/// span.
pub proof fn law_what_fits_is_sendable(
    packet_size: int,
    packets_per_second: u32,
    duration_seconds: u64,
    destinations: int,
    start: TimeSpan,
    last_due: TimeSpan,
)
    requires
        packets_per_second > 0,
        packet_size >= 16 || destinations == 0 && packet_size >= 12,
        round_count(packets_per_second, duration_seconds) < 0x1_0000_0000,
        round_count(packets_per_second, duration_seconds) * destinations < 0x1_0000_0000,
        last_due.wf(),
        last_due.total_nanos() == start.total_nanos() + round_step(packets_per_second) * (
        round_count(packets_per_second, duration_seconds) - 1),
    ensures
        sendable(packet_size, packets_per_second, duration_seconds, destinations, start),
{
    timespan::law_representable_lengths(last_due.total_nanos());
}

/// In a measurement that can be sent there is a pace, the rounds and the datagrams
/// have numbers of 32 bits, and if there is a round, then a datagram holds a time.
/// A measurement without any round can be sent whatever else is asked for.
pub proof fn law_sendable_rounds(
    packet_size: int,
    packets_per_second: u32,
    duration_seconds: u64,
    destinations: int,
    start: TimeSpan,
)
    ensures
        sendable(packet_size, packets_per_second, duration_seconds, destinations, start) ==> {
            &&& packets_per_second > 0
            &&& packets_per_second * duration_seconds < 0x1_0000_0000
            &&& packets_per_second * duration_seconds * destinations < 0x1_0000_0000
            &&& packets_per_second * duration_seconds > 0 ==> packet_size >= 12
        },
        packets_per_second > 0 && packets_per_second * duration_seconds == 0 ==> sendable(
            packet_size,
            packets_per_second,
            duration_seconds,
            destinations,
            start,
        ),
{
    assert(0 * destinations == 0) by (nonlinear_arith);
}

/// After a whole round for every reading of the clock, a sender is finished exactly
/// if these were all of its rounds. Otherwise it sends at once if the next round is
/// due, and if not, it sleeps for just as long as it takes until then. Round 0 is
/// due at the start and each further one a step after the one before.
pub proof fn law_pacing(
    packet_size: int,
    packets_per_second: u32,
    duration_seconds: u64,
    destinations: int,
    start: TimeSpan,
    clock: Seq<TimeSpan>,
    now: TimeSpan,
)
    requires
        sendable(packet_size, packets_per_second, duration_seconds, destinations, start),
        start.wf(),
        now.wf(),
        0 <= destinations,
        clock.len() <= packets_per_second * duration_seconds,
    ensures
        ({
            let state = SenderState::fresh(
                packet_size,
                packets_per_second,
                duration_seconds,
                destinations,
                start,
            ).run(clock);
            let due = start.total_nanos() + round_step(packets_per_second) * clock.len();
            &&& state.round_complete()
            &&& state.pacing(now) is Finished <==> clock.len() == packets_per_second
                * duration_seconds
            &&& state.pacing(now) is SendNow <==> clock.len() < packets_per_second
                * duration_seconds && now.total_nanos() >= due
            &&& match state.pacing(now) {
                Pacing::SleepFirst(pause) => {
                    &&& pause.wf()
                    &&& pause.total_nanos() > 0
                    &&& now.total_nanos() + pause.total_nanos() == due
                },
                _ => true,
            }
        }),
{
    let fresh = SenderState::fresh(
        packet_size,
        packets_per_second,
        duration_seconds,
        destinations,
        start,
    );
    let state = fresh.run(clock);
    lemma_run_goes_on(fresh, clock);
    if clock.len() < fresh.rounds && now.total_nanos() < state.due() {
        let step = fresh.step;
        let rounds = fresh.rounds;
        let round = clock.len() as int;
        vstd::arithmetic::div_mod::lemma_div_pos_is_pos(
            NANOS_PER_SEC as int,
            packets_per_second as int,
        );
        assert(0 <= step * round <= step * (rounds - 1)) by (nonlinear_arith)
            requires
                0 <= step,
                0 <= round <= rounds - 1,
        ;
        timespan::law_representable_lengths(start.total_nanos() + step * (rounds - 1));
        timespan::law_span_of_nanos(state.due() - now.total_nanos(), now);
    }
}

/// In a round in which some destinations were served, the next one is that which
/// follows them in their order, until none is left.
pub proof fn law_destinations_in_turn(
    sender: SenderState,
    clock: Seq<TimeSpan>,
    now: TimeSpan,
    served: nat,
)
    requires
        served <= sender.destinations,
    ensures
        ({
            let state = sender.run(clock).begin(now).serve_many(served);
            &&& served < sender.destinations ==> state.next_to() == Some(served as int)
            &&& served == sender.destinations ==> state.next_to() is None
        }),
{
    lemma_run_keeps(sender, clock);
    lemma_serve_keeps(sender.run(clock).begin(now), served);
}

/// The datagram that goes to destination `to` in round `round` has the size asked
/// for, bears its own number and the time at which its round began, and is zero
/// behind its header.
pub proof fn law_sent_datagrams(
    packet_size: int,
    packets_per_second: u32,
    duration_seconds: u64,
    destinations: int,
    start: TimeSpan,
    clock: Seq<TimeSpan>,
    round: int,
    to: int,
)
    requires
        packet_size >= 16,
        0 <= round < clock.len(),
        0 <= to < destinations,
        clock[round].wf(),
        clock.len() * destinations < 0x1_0000_0000,
    ensures
        ({
            let sent = SenderState::fresh(
                packet_size,
                packets_per_second,
                duration_seconds,
                destinations,
                start,
            ).sent(clock);
            let no = round * destinations + to;
            &&& sent.len() == clock.len() * destinations
            &&& 0 <= no < sent.len()
            &&& sent[no].to == to
            &&& sent[no].datagram.len() == packet_size
            &&& wire::header_no(sent[no].datagram) == no
            &&& wire::header_nanos(sent[no].datagram) == clock[round].total_nanos()
            &&& forall|i: int| 16 <= i < packet_size ==> #[trigger] sent[no].datagram[i] == 0
        }),
{
    let fresh = SenderState::fresh(
        packet_size,
        packets_per_second,
        duration_seconds,
        destinations,
        start,
    );
    let no = round * destinations + to;
    law_run_sends_everything(
        packet_size,
        packets_per_second,
        duration_seconds,
        destinations,
        start,
        clock,
        round,
        to,
    );
    let datagram = fresh.sent(clock)[no].datagram;
    wire::law_header_read_of_write(fresh.datagram, clock[round], no as u32);
    wire::law_payload_untouched(fresh.datagram, clock[round], no as u32);
    assert forall|i: int| 16 <= i < packet_size implies #[trigger] datagram[i] == 0 by {
        assert(datagram.skip(16)[i - 16] == fresh.datagram.skip(16)[i - 16]);
    }
}

proof fn lemma_serve_keeps(begun: SenderState, n: nat)
    ensures
        begun.serve_many(n) == (SenderState {
            served: begun.served + n,
            totalctr: begun.totalctr + n,
            datagram: begun.serve_many(n).datagram,
            ..begun
        }),
    decreases n,
{
    if n > 0 {
        lemma_serve_keeps(begun, (n - 1) as nat);
    }
}

proof fn lemma_run_keeps(sender: SenderState, clock: Seq<TimeSpan>)
    ensures
        sender.run(clock).start == sender.start,
        sender.run(clock).step == sender.step,
        sender.run(clock).rounds == sender.rounds,
        sender.run(clock).destinations == sender.destinations,
        sender.run(clock).round == sender.round + clock.len(),
    decreases clock.len(),
{
    if clock.len() > 0 {
        lemma_run_keeps(sender, clock.drop_last());
        lemma_serve_keeps(
            sender.run(clock.drop_last()).begin(clock.last()),
            sender.destinations as nat,
        );
    }
}

proof fn lemma_run_goes_on(sender: SenderState, clock: Seq<TimeSpan>)
    requires
        sender.round_complete(),
        0 <= sender.destinations,
    ensures
        sender.run(clock).round_complete(),
        sender.run(clock).start == sender.start,
        sender.run(clock).step == sender.step,
        sender.run(clock).rounds == sender.rounds,
        sender.run(clock).round == sender.round + clock.len(),
{
    lemma_run_keeps(sender, clock);
    if clock.len() > 0 {
        lemma_run_keeps(sender, clock.drop_last());
        lemma_serve_keeps(
            sender.run(clock.drop_last()).begin(clock.last()),
            sender.destinations as nat,
        );
    }
}

} // verus!
