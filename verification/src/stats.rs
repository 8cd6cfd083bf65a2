//! Counting what came back: received, lost and duplicate packets, and how long
//! they were under way.

use vstd::prelude::*;

use crate::timespan::TimeSpan;

verus! {

/// A reply: the number of the datagram and the time from its sending to its
/// return. On the way it crosses the network four times.
#[derive(Clone, Copy, Debug, PartialEq, Eq, Structural)]
pub struct Packet {
    pub no: u32,
    pub rtt4: TimeSpan,
}

/// A gap in the numbers that is longer than this counts as bad loss.
pub const BAD_LOSS_GAP: u32 = 50;

/// The bracket that a time under way falls into: below 50, 180, 400, 1000 and
/// 2000 milliseconds, or longer.
pub open spec fn rtt4_bracket(nanos: int) -> int {
    if nanos < 50 * 1_000_000 {
        0
    } else if nanos < 180 * 1_000_000 {
        1
    } else if nanos < 400 * 1_000_000 {
        2
    } else if nanos < 1000 * 1_000_000 {
        3
    } else if nanos < 2000 * 1_000_000 {
        4
    } else {
        5
    }
}

/// What is known of the packets analysed so far.
#[verifier::ext_equal]
pub struct Tally {
    /// The lowest number seen.
    pub min_n: int,
    /// The highest number seen.
    pub max_n: int,
    /// How many packets were counted.
    pub ctr: int,
    /// The number of the packet that was counted last.
    pub prevn: int,
    /// How many numbers were passed over in gaps that count as bad loss.
    pub badloss: int,
    /// How many packets were left out as duplicates.
    pub dup: int,
    /// How many of the counted packets fall into each bracket.
    pub rtt4stats: Seq<int>,
}

impl Tally {
    /// Nothing analysed yet.
    pub open spec fn empty() -> Tally {
        Tally {
            min_n: u32::MAX as int,
            max_n: 0,
            ctr: 0,
            prevn: u32::MAX as int,
            badloss: 0,
            dup: 0,
            rtt4stats: seq![0int, 0, 0, 0, 0, 0],
        }
    }

    /// One more packet. It is left out if it has the number of the packet that
    /// was counted last; the lowest and the highest number take it in anyhow.
    pub open spec fn analyse(self, p: Packet) -> Tally {
        let min_n = if p.no < self.min_n {
            p.no as int
        } else {
            self.min_n
        };
        let max_n = if p.no > self.max_n {
            p.no as int
        } else {
            self.max_n
        };
        if p.no == self.prevn {
            Tally { min_n, max_n, dup: self.dup + 1, ..self }
        } else {
            let b = rtt4_bracket(p.rtt4.total_nanos());
            Tally {
                min_n,
                max_n,
                ctr: self.ctr + 1,
                prevn: p.no as int,
                badloss: self.badloss + self.gap(p.no as int),
                rtt4stats: self.rtt4stats.update(b, self.rtt4stats[b] + 1),
                ..self
            }
        }
    }

    /// The bad loss that a packet with the number `no` brings.
    pub open spec fn gap(self, no: int) -> int {
        if no - self.prevn > BAD_LOSS_GAP {
            no - self.prevn
        } else {
            0
        }
    }

    /// All of `packets`, from the first to the last.
    pub open spec fn analyse_all(self, packets: Seq<Packet>) -> Tally
        decreases packets.len(),
    {
        if packets.len() == 0 {
            self
        } else {
            self.analyse_all(packets.drop_last()).analyse(packets.last())
        }
    }

    /// How many packets were analysed.
    pub open spec fn handled(self) -> int {
        self.ctr + self.dup
    }

    /// How many numbers lie from the lowest to the highest one seen.
    pub open spec fn window(self) -> int {
        self.max_n - self.min_n + 1
    }

    pub open spec fn bracket_sum(self) -> int {
        self.rtt4stats[0] + self.rtt4stats[1] + self.rtt4stats[2] + self.rtt4stats[3]
            + self.rtt4stats[4] + self.rtt4stats[5]
    }

    /// What holds of every tally that was counted from nothing.
    pub open spec fn wf(self) -> bool {
        &&& 0 <= self.ctr
        &&& 0 <= self.dup
        &&& 0 <= self.prevn <= u32::MAX
        &&& 0 <= self.badloss <= self.ctr * u32::MAX
        &&& self.rtt4stats.len() == 6
        &&& forall|b: int| 0 <= b < 6 ==> 0 <= #[trigger] self.rtt4stats[b]
        &&& self.bracket_sum() == self.ctr
        &&& 0 <= self.min_n <= u32::MAX
        &&& 0 <= self.max_n <= u32::MAX
        &&& self.handled() == 0 ==> self.min_n == u32::MAX && self.max_n == 0
        &&& self.handled() > 0 ==> self.min_n <= self.max_n
    }
}

/// Counting keeps a tally in order: every analysed packet is either counted or
/// a duplicate, and every counted packet is in exactly one bracket.
pub proof fn law_tally_stays_wf(tally: Tally, p: Packet)
    requires
        tally.wf(),
    ensures
        tally.analyse(p).wf(),
        tally.analyse(p).handled() == tally.handled() + 1,
{
    let next = tally.analyse(p);
    assert((tally.ctr + 1) * u32::MAX == tally.ctr * u32::MAX + u32::MAX) by (nonlinear_arith);
    if p.no != tally.prevn {
        let b = rtt4_bracket(p.rtt4.total_nanos());
        assert(next.rtt4stats[b] == tally.rtt4stats[b] + 1);
    }
}

/// Packets may be analysed in pieces, one piece after the other.
pub proof fn law_analyse_in_pieces(tally: Tally, a: Seq<Packet>, b: Seq<Packet>)
    ensures
        tally.analyse_all(a + b) == tally.analyse_all(a).analyse_all(b),
    decreases b.len(),
{
    if b.len() == 0 {
        assert(a + b =~= a);
    } else {
        assert((a + b).drop_last() =~= a + b.drop_last());
        law_analyse_in_pieces(tally, a, b.drop_last());
    }
}

pub(crate) proof fn lemma_analyse_one(tally: Tally, p: Packet)
    ensures
        tally.analyse_all(seq![p]) == tally.analyse(p),
{
    assert(seq![p].drop_last() =~= Seq::<Packet>::empty());
    reveal_with_fuel(Tally::analyse_all, 2);
}

pub(crate) proof fn lemma_analyse_first(tally: Tally, packets: Seq<Packet>)
    ensures
        packets.len() > 0 ==> tally.analyse_all(packets) == tally.analyse(packets[0]).analyse_all(
            packets.skip(1),
        ),
{
    if packets.len() > 0 {
        assert(packets =~= seq![packets[0]] + packets.skip(1));
        law_analyse_in_pieces(tally, seq![packets[0]], packets.skip(1));
        lemma_analyse_one(tally, packets[0]);
    }
}

/// The figures of a finished measurement.
#[derive(Clone, Copy, Debug, PartialEq, Eq)]
pub struct Summary {
    /// How many packets were counted.
    pub received: u32,
    /// How many numbers lie from the lowest to the highest one seen.
    pub window: u64,
    /// How many numbers were passed over in long gaps.
    pub badloss: u64,
    /// How many of the counted packets fall into each bracket.
    pub rtt4stats: [u32; 6],
}

/// `summary` holds the figures of `tally`; there is none if nothing was counted.
pub open spec fn summarises(summary: Option<Summary>, tally: Tally) -> bool {
    match summary {
        None => tally.ctr == 0,
        Some(s) => {
            &&& tally.ctr > 0
            &&& s.received == tally.ctr
            &&& s.window == tally.window()
            &&& s.badloss == tally.badloss
            &&& forall|b: int| 0 <= b < 6 ==> #[trigger] s.rtt4stats@[b] == tally.rtt4stats[b]
        },
    }
}

/// The running counts of a measurement.
pub struct PacketStats {
    min_n: u32,
    max_n: u32,
    ctr: u32,
    prevn: u32,
    badloss: u64,
    dup: u32,
    rtt4stats: [u32; 6],
}

impl View for PacketStats {
    type V = Tally;

    closed spec fn view(&self) -> Tally {
        Tally {
            min_n: self.min_n as int,
            max_n: self.max_n as int,
            ctr: self.ctr as int,
            prevn: self.prevn as int,
            badloss: self.badloss as int,
            dup: self.dup as int,
            rtt4stats: self.rtt4stats@.map_values(|n: u32| n as int),
        }
    }
}

impl PacketStats {
    pub fn new() -> (stats: PacketStats)
        ensures
            stats@ == Tally::empty(),
            stats@.wf(),
    {
        let stats = PacketStats {
            min_n: u32::MAX,
            max_n: u32::MIN,
            ctr: 0,
            prevn: u32::MAX,
            badloss: 0,
            dup: 0,
            rtt4stats: [0, 0, 0, 0, 0, 0],
        };
        assert(stats@.rtt4stats =~= Tally::empty().rtt4stats);
        stats
    }

    /// Takes one more packet into account.
    pub fn analyse_packet(&mut self, p: &Packet)
        requires
            old(self)@.wf(),
            old(self)@.handled() < u32::MAX,
            p.rtt4.wf(),
        ensures
            final(self)@ == old(self)@.analyse(*p),
            final(self)@.wf(),
    {
        let ghost before = self@;
        proof {
            law_tally_stays_wf(before, *p);
            assert(before.ctr * u32::MAX <= (u32::MAX - 1) * u32::MAX) by (nonlinear_arith)
                requires
                    before.ctr <= u32::MAX - 1,
            ;
        }
        if self.min_n > p.no {
            self.min_n = p.no;
        }
        if self.max_n < p.no {
            self.max_n = p.no;
        }
        if p.no == self.prevn {
            self.dup = self.dup + 1;
            return;
        }
        if p.no > self.prevn && p.no - self.prevn > BAD_LOSS_GAP {
            self.badloss = self.badloss + (p.no - self.prevn) as u64;
        }
        let bracket: usize = bracket_of(&p.rtt4);
        proof {
            assert(before.rtt4stats[0] >= 0 && before.rtt4stats[1] >= 0 && before.rtt4stats[2] >= 0
                && before.rtt4stats[3] >= 0 && before.rtt4stats[4] >= 0 && before.rtt4stats[5] >= 0);
        }
        self.rtt4stats[bracket] = self.rtt4stats[bracket] + 1;
        self.ctr = self.ctr + 1;
        self.prevn = p.no;
        assert(self@.rtt4stats =~= before.analyse(*p).rtt4stats);
    }

    /// How many packets were analysed.
    pub fn handled(&self) -> (count: u64)
        requires
            self@.wf(),
        ensures
            count == self@.handled(),
    {
        self.ctr as u64 + self.dup as u64
    }

    /// The figures so far, or `None` if no packet was counted.
    pub fn summary(&self) -> (summary: Option<Summary>)
        requires
            self@.wf(),
        ensures
            summarises(summary, self@),
    {
        if self.ctr == 0 {
            return None;
        }
        Some(
            Summary {
                received: self.ctr,
                window: (self.max_n - self.min_n) as u64 + 1,
                badloss: self.badloss,
                rtt4stats: self.rtt4stats,
            },
        )
    }
}

/// The bracket that a time under way falls into.
fn bracket_of(rtt4: &TimeSpan) -> (bracket: usize)
    requires
        rtt4.wf(),
    ensures
        bracket == rtt4_bracket(rtt4.total_nanos()),
{
    if rtt4.is_shorter_than(&TimeSpan::from_millis(50)) {
        0
    } else if rtt4.is_shorter_than(&TimeSpan::from_millis(180)) {
        1
    } else if rtt4.is_shorter_than(&TimeSpan::from_millis(400)) {
        2
    } else if rtt4.is_shorter_than(&TimeSpan::from_millis(1000)) {
        3
    } else if rtt4.is_shorter_than(&TimeSpan::from_millis(2000)) {
        4
    } else {
        5
    }
}

/// The brackets lie next to each other without gap or overlap, with their edges
/// at 0, 50, 180, 400, 1000 and 2000 milliseconds.
pub proof fn law_brackets_have_these_edges(nanos: int)
    requires
        0 <= nanos,
    ensures
        rtt4_bracket(nanos) == 0 <==> nanos < 50_000_000,
        rtt4_bracket(nanos) == 1 <==> 50_000_000 <= nanos < 180_000_000,
        rtt4_bracket(nanos) == 2 <==> 180_000_000 <= nanos < 400_000_000,
        rtt4_bracket(nanos) == 3 <==> 400_000_000 <= nanos < 1_000_000_000,
        rtt4_bracket(nanos) == 4 <==> 1_000_000_000 <= nanos < 2_000_000_000,
        rtt4_bracket(nanos) == 5 <==> 2_000_000_000 <= nanos,
{
}

/// The longer the time under way, the higher the bracket, or the same.
pub proof fn law_brackets_rise_with_time(shorter: int, longer: int)
    requires
        shorter <= longer,
    ensures
        rtt4_bracket(shorter) <= rtt4_bracket(longer),
{
}

/// The number of the packet that left last is the one remembered, counted or not.
pub(crate) proof fn lemma_last_number(packets: Seq<Packet>)
    ensures
        Tally::empty().analyse_all(packets).prevn == if packets.len() == 0 {
            u32::MAX
        } else {
            packets.last().no
        },
        Tally::empty().analyse_all(packets).rtt4stats.len() == 6,
    decreases packets.len(),
{
    if packets.len() > 0 {
        lemma_last_number(packets.drop_last());
    }
}

/// What one more packet does to the figures, in whatever order the packets come:
/// a packet with the number of the one right before it, or with the highest
/// number there is if none came before it, changes nothing but the count of
/// duplicates. Any other is counted, in the bracket of its time under way and in
/// no other, and adds to the bad loss the step from the number before it, if that
/// step leads up by more than 50.
pub proof fn law_one_more_packet(packets: Seq<Packet>, p: Packet)
    requires
        p.rtt4.wf(),
    ensures
        ({
            let before = Tally::empty().analyse_all(packets);
            let after = Tally::empty().analyse_all(packets.push(p));
            let nanos = p.rtt4.total_nanos();
            let repeats = if packets.len() == 0 {
                p.no == 0xffff_ffff
            } else {
                p.no == packets.last().no
            };
            &&& repeats ==> {
                &&& after.dup == before.dup + 1
                &&& after.ctr == before.ctr
                &&& after.badloss == before.badloss
                &&& after.rtt4stats == before.rtt4stats
            }
            &&& !repeats ==> {
                &&& after.dup == before.dup
                &&& after.ctr == before.ctr + 1
                &&& packets.len() > 0 && p.no > packets.last().no + 50 ==> after.badloss
                    == before.badloss + p.no - packets.last().no
                &&& packets.len() == 0 || p.no <= packets.last().no + 50 ==> after.badloss
                    == before.badloss
                &&& after.rtt4stats[0] - before.rtt4stats[0] == if nanos < 50_000_000 {
                    1int
                } else {
                    0
                }
                &&& after.rtt4stats[1] - before.rtt4stats[1] == if 50_000_000 <= nanos
                    < 180_000_000 {
                    1int
                } else {
                    0
                }
                &&& after.rtt4stats[2] - before.rtt4stats[2] == if 180_000_000 <= nanos
                    < 400_000_000 {
                    1int
                } else {
                    0
                }
                &&& after.rtt4stats[3] - before.rtt4stats[3] == if 400_000_000 <= nanos
                    < 1_000_000_000 {
                    1int
                } else {
                    0
                }
                &&& after.rtt4stats[4] - before.rtt4stats[4] == if 1_000_000_000 <= nanos
                    < 2_000_000_000 {
                    1int
                } else {
                    0
                }
                &&& after.rtt4stats[5] - before.rtt4stats[5] == if 2_000_000_000 <= nanos {
                    1int
                } else {
                    0
                }
            }
        }),
{
    lemma_last_number(packets);
    assert(packets.push(p).drop_last() =~= packets);
    assert(packets.push(p).last() == p);
}

/// A summary shows the figures of its tally: how many were counted, how many
/// numbers lie from the lowest to the highest, the bad loss and the brackets; it
/// is there exactly if something was counted.
pub proof fn law_summary_shows_its_tally(summary: Option<Summary>, tally: Tally)
    requires
        summarises(summary, tally),
    ensures
        summary is None <==> tally.ctr == 0,
        summary is Some ==> {
            &&& summary->0.received == tally.ctr
            &&& summary->0.window + tally.min_n == tally.max_n + 1
            &&& summary->0.badloss == tally.badloss
            &&& forall|b: int|
                0 <= b < 6 ==> #[trigger] summary->0.rtt4stats@[b] == tally.rtt4stats[b]
        },
{
}

} // verus!
