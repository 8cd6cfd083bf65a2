//! What a test is asked to do, how much traffic that means, and whether it may
//! run.

#![allow(unused_imports)]

use vstd::prelude::*;

use crate::sender;

verus! {

/// The settings of a test.
#[derive(Clone, Copy, Debug, PartialEq, Eq, Structural)]
pub struct Opt {
    /// Number of simultaneous connections.
    pub num_connections: usize,
    /// Size of a datagram in bytes.
    pub packet_size: usize,
    /// Datagrams per second on each connection.
    pub packets_per_second: u32,
    /// How long to send, in seconds.
    pub duration: u64,
    /// How long to go on receiving after that, in seconds.
    pub delay_after_stopping_sender: u64,
    /// Time between two allocations, in microseconds.
    pub delay_between_allocations: u64,
    /// Only calculate bandwidth and traffic.
    pub only_calc: bool,
    /// Run whatever the bandwidth and traffic.
    pub force: bool,
    /// Use the pace and the datagram size of a video call.
    pub video_override: bool,
    /// Use the pace and the datagram size of an audio call.
    pub audio_override: bool,
    /// Report in JSON.
    pub json_mode: bool,
}

impl Default for Opt {
    fn default() -> (opt: Opt)
        ensures
            opt == (Opt {
                num_connections: 1,
                packet_size: 100,
                packets_per_second: 5,
                duration: 5,
                delay_after_stopping_sender: 3,
                delay_between_allocations: 2000,
                only_calc: false,
                force: false,
                video_override: false,
                audio_override: false,
                json_mode: false,
            }),
    {
        Opt {
            num_connections: 1,
            packet_size: 100,
            packets_per_second: 5,
            duration: 5,
            delay_after_stopping_sender: 3,
            delay_between_allocations: 2000,
            only_calc: false,
            force: false,
            video_override: false,
            audio_override: false,
            json_mode: false,
        }
    }
}

/// Why a test does not start.
#[derive(Clone, Copy, Debug, PartialEq, Eq, Structural)]
pub enum OptError {
    /// Audio and video were asked for at once.
    AudioAndVideo,
    /// The test is too large and was not forced.
    TooLarge,
}

impl OptError {
    /// The error in words.
    pub fn message(&self) -> (text: &'static str)
        ensures
            text@ == match *self {
                OptError::AudioAndVideo => "Both --audio and --video is meaningless"@,
                OptError::TooLarge =>
                    "Refusing to run test of that scale. Use --force to override."@,
            },
    {
        match self {
            OptError::AudioAndVideo => "Both --audio and --video is meaningless",
            OptError::TooLarge => "Refusing to run test of that scale. Use --force to override.",
        }
    }
}

/// What is to be done once the load of a test is known.
#[derive(Clone, Copy, Debug, PartialEq, Eq, Structural)]
pub enum Decision {
    /// Show the load and stop.
    CalculateOnly,
    /// The test is too large and was not forced.
    Refuse,
    /// Run the test.
    Run,
}

/// Bytes of headers around every datagram.
pub const OVERHEAD: u64 = 40;

/// The settings `opt` after the audio or video override.
pub open spec fn overridden(opt: Opt) -> Opt {
    if opt.audio_override {
        Opt { packets_per_second: 16, packet_size: 192, ..opt }
    } else if opt.video_override {
        Opt { packets_per_second: 90, packet_size: 960, ..opt }
    } else {
        opt
    }
}

/// Datagrams per second on all connections.
pub open spec fn datagram_rate(opt: Opt) -> int {
    opt.packets_per_second * opt.num_connections
}

/// Bytes of a datagram with its headers.
pub open spec fn wire_size(opt: Opt) -> int {
    opt.packet_size + OVERHEAD
}

/// The load of a test in bits per second, there and back.
pub open spec fn load(opt: Opt) -> int {
    datagram_rate(opt) * wire_size(opt) * 2 * 8
}

/// The load fits into 64 bits, and so does the size of a datagram with its headers.
pub open spec fn estimable(opt: Opt) -> bool {
    &&& wire_size(opt) <= u64::MAX
    &&& load(opt) <= u64::MAX
}

/// More than 50 megabits per second.
pub open spec fn too_fast(opt: Opt) -> bool {
    load(opt) > 50_000_000
}

/// More than 100 megabytes of traffic at nine bits to the byte, as a quotient
/// in double precision: of the loads that come to exactly that, those of 640
/// and 1280 bits per second are rounded up beyond it.
pub open spec fn too_much(opt: Opt) -> bool {
    ||| load(opt) * opt.duration > 900_000_000
    ||| load(opt) * opt.duration == 900_000_000 && (load(opt) == 640 || load(opt) == 1280)
}

/// What is to be done with the test `opt`.
pub open spec fn decision(opt: Opt) -> Decision {
    if opt.only_calc {
        Decision::CalculateOnly
    } else if (too_fast(opt) || too_much(opt)) && !opt.force {
        Decision::Refuse
    } else {
        Decision::Run
    }
}

/// The load of the test is announced before anything else happens.
pub open spec fn announced(opt: Opt) -> bool {
    !(opt.json_mode && opt.only_calc)
}

/// How many datagrams are sent in all.
pub open spec fn total(opt: Opt) -> int {
    opt.duration * opt.packets_per_second * opt.num_connections
}

/// The number of datagrams fits into 64 bits, and so does that of a connection.
pub open spec fn countable(opt: Opt) -> bool {
    &&& opt.duration * opt.packets_per_second <= u64::MAX
    &&& total(opt) <= u64::MAX
}

/// How long the receiver listens, in seconds.
pub open spec fn listening_time(opt: Opt) -> int {
    opt.duration + opt.delay_after_stopping_sender
}

/// How long the clients are kept, in seconds.
pub open spec fn running_time(opt: Opt) -> int {
    opt.duration + opt.delay_after_stopping_sender + 1
}

impl Opt {
    /// Puts the audio or video override into effect.
    pub fn apply_overrides(&mut self) -> (result: Result<(), OptError>)
        ensures
            match result {
                Ok(_) => {
                    &&& !(old(self).audio_override && old(self).video_override)
                    &&& *final(self) == overridden(*old(self))
                },
                Err(e) => {
                    &&& old(self).audio_override && old(self).video_override
                    &&& e == OptError::AudioAndVideo
                    &&& *final(self) == *old(self)
                },
            },
    {
        if self.audio_override && self.video_override {
            return Err(OptError::AudioAndVideo);
        }
        if self.audio_override {
            self.packets_per_second = 16;
            self.packet_size = 192;
        }
        if self.video_override {
            self.packets_per_second = 90;
            self.packet_size = 960;
        }
        Ok(())
    }

    /// The load of the test in bits per second, there and back.
    pub fn bits_per_second(&self) -> (bits: u64)
        requires
            estimable(*self),
        ensures
            bits == load(*self),
    {
        proof {
            lemma_load_parts(*self);
        }
        (self.packets_per_second as u64) * (self.num_connections as u64) * (self.packet_size as u64
            + OVERHEAD) * 2 * 8
    }

    /// The load of the test in bits per second, there and back, or `None` if it
    /// does not fit.
    pub fn checked_bits_per_second(&self) -> (bits: Option<u64>)
        ensures
            bits is Some == estimable(*self),
            bits is Some ==> bits->0 == load(*self),
    {
        let ghost rate = datagram_rate(*self);
        let ghost size = wire_size(*self);
        proof {
            assert(0 <= rate) by (nonlinear_arith)
                requires
                    rate == self.packets_per_second * self.num_connections,
            ;
            assert(rate <= rate * size) by (nonlinear_arith)
                requires
                    0 <= rate,
                    1 <= size,
            ;
        }
        let rate: u64 = (self.packets_per_second as u64).checked_mul(self.num_connections as u64)?;
        let size: u64 = (self.packet_size as u64).checked_add(OVERHEAD)?;
        rate.checked_mul(size)?.checked_mul(2)?.checked_mul(8)
    }

    /// Whether the test goes beyond the bandwidth or the traffic that may be
    /// used without asking.
    pub fn exceeds_limits(&self) -> (exceeds: bool)
        requires
            estimable(*self),
        ensures
            exceeds == (too_fast(*self) || too_much(*self)),
    {
        let bits: u64 = self.bits_per_second();
        proof {
            lemma_product_fits(bits, self.duration);
        }
        let traffic: u128 = bits as u128 * self.duration as u128;
        bits > 50_000_000 || traffic > 900_000_000 || (traffic == 900_000_000 && (bits == 640
            || bits == 1280))
    }

    /// Whether the load is announced before anything else happens.
    pub fn announces_load(&self) -> (announces: bool)
        ensures
            announces == announced(*self),
    {
        !(self.json_mode && self.only_calc)
    }

    /// What is to be done. A test that is only calculated never runs, and a
    /// forced one is never refused.
    pub fn decide(&self) -> (decision: Decision)
        requires
            estimable(*self),
        ensures
            decision == self::decision(*self),
    {
        if self.only_calc {
            return Decision::CalculateOnly;
        }
        if self.exceeds_limits() && !self.force {
            return Decision::Refuse;
        }
        Decision::Run
    }

    /// How many datagrams the test sends in all.
    pub fn total_packets(&self) -> (total: u64)
        requires
            countable(*self),
        ensures
            total == self::total(*self),
    {
        self.duration * (self.packets_per_second as u64) * (self.num_connections as u64)
    }

    /// How many datagrams the test sends in all, or `None` if that does not fit.
    pub fn checked_total_packets(&self) -> (total: Option<u64>)
        ensures
            total is Some == countable(*self),
            total is Some ==> total->0 == self::total(*self),
    {
        self.duration.checked_mul(self.packets_per_second as u64)?.checked_mul(
            self.num_connections as u64,
        )
    }

    /// How long the receiver listens, in seconds.
    pub fn receive_seconds(&self) -> (seconds: u64)
        requires
            listening_time(*self) <= u64::MAX,
        ensures
            seconds == listening_time(*self),
    {
        self.duration + self.delay_after_stopping_sender
    }

    /// How long the receiver listens, in seconds, or `None` if that does not fit.
    pub fn checked_receive_seconds(&self) -> (seconds: Option<u64>)
        ensures
            seconds is Some == (listening_time(*self) <= u64::MAX),
            seconds is Some ==> seconds->0 == listening_time(*self),
    {
        self.duration.checked_add(self.delay_after_stopping_sender)
    }

    /// How long the clients are kept, in seconds: one second beyond the receiver.
    pub fn run_seconds(&self) -> (seconds: u64)
        requires
            running_time(*self) <= u64::MAX,
        ensures
            seconds == running_time(*self),
    {
        self.duration + self.delay_after_stopping_sender + 1
    }

    /// How long the clients are kept, in seconds, or `None` if that does not fit.
    pub fn checked_run_seconds(&self) -> (seconds: Option<u64>)
        ensures
            seconds is Some == (running_time(*self) <= u64::MAX),
            seconds is Some ==> seconds->0 == running_time(*self),
    {
        self.duration.checked_add(self.delay_after_stopping_sender)?.checked_add(1)
    }
}

proof fn lemma_load_parts(opt: Opt)
    requires
        estimable(opt),
    ensures
        0 <= opt.packets_per_second * opt.num_connections <= u64::MAX,
        0 <= opt.packets_per_second * opt.num_connections * (opt.packet_size + OVERHEAD)
            <= u64::MAX,
        0 <= opt.packets_per_second * opt.num_connections * (opt.packet_size + OVERHEAD) * 2
            <= u64::MAX,
{
    let streams = opt.packets_per_second * opt.num_connections;
    assert(0 <= streams) by (nonlinear_arith)
        requires
            streams == opt.packets_per_second * opt.num_connections,
    ;
    assert(streams <= streams * (opt.packet_size + OVERHEAD)) by (nonlinear_arith)
        requires
            0 <= streams,
    ;
}

proof fn lemma_product_fits(a: u64, b: u64)
    ensures
        0 <= a * b <= u128::MAX,
{
    assert(0 <= a * b <= 0xffff_ffff_ffff_ffff * 0xffff_ffff_ffff_ffff) by (nonlinear_arith)
        requires
            0 <= a <= 0xffff_ffff_ffff_ffff,
            0 <= b <= 0xffff_ffff_ffff_ffff,
    ;
}

/// The datagrams that a test counts as sent are those that its sender sends.
pub proof fn law_counted_total_is_sent_total(opt: Opt)
    ensures
        sender::round_count(opt.packets_per_second, opt.duration) * opt.num_connections
            == total(opt),
{
    assert(opt.packets_per_second * opt.duration == opt.duration * opt.packets_per_second)
        by (nonlinear_arith);
}

/// An override that was put into effect once changes nothing more.
pub proof fn law_overrides_are_idempotent(opt: Opt)
    ensures
        overridden(overridden(opt)) == overridden(opt),
{
}

/// A test that is at least as large in every respect as one beyond the limits
/// is beyond the limits too.
pub proof fn law_larger_tests_exceed_too(small: Opt, large: Opt)
    requires
        too_fast(small) || too_much(small),
        small.packets_per_second <= large.packets_per_second,
        small.num_connections <= large.num_connections,
        small.packet_size <= large.packet_size,
        small.duration <= large.duration,
    ensures
        too_fast(large) || too_much(large),
{
    let a = small.packets_per_second * small.num_connections;
    let b = large.packets_per_second * large.num_connections;
    assert(0 <= a <= b) by (nonlinear_arith)
        requires
            a == small.packets_per_second * small.num_connections,
            b == large.packets_per_second * large.num_connections,
            0 <= small.packets_per_second <= large.packets_per_second,
            0 <= small.num_connections <= large.num_connections,
    ;
    let c = small.packet_size + OVERHEAD;
    let d = large.packet_size + OVERHEAD;
    assert(0 <= a * c <= b * d) by (nonlinear_arith)
        requires
            0 <= a <= b,
            0 <= c <= d,
    ;
    let x = load(small);
    let y = load(large);
    assert(0 <= x <= y);
    let s = small.duration as int;
    let t = large.duration as int;
    assert(x * s <= y * t) by (nonlinear_arith)
        requires
            0 <= x <= y,
            0 <= s <= t,
    ;
    if x * s == 900_000_000 && y * t == 900_000_000 {
        assert(x == y) by (nonlinear_arith)
            requires
                0 < x <= y,
                0 <= s <= t,
                x * s == 900_000_000,
                y * t == 900_000_000,
        ;
    }
}

/// Audio means 16 datagrams of 192 bytes a second, video 90 of 960 bytes, and
/// nothing else of the settings changes. Without either, nothing changes at all.
pub proof fn law_overrides(opt: Opt)
    ensures
        opt.audio_override ==> overridden(opt).packets_per_second == 16 && overridden(
            opt,
        ).packet_size == 192,
        opt.video_override && !opt.audio_override ==> overridden(opt).packets_per_second == 90
            && overridden(opt).packet_size == 960,
        !opt.audio_override && !opt.video_override ==> overridden(opt) == opt,
        (Opt {
            packets_per_second: opt.packets_per_second,
            packet_size: opt.packet_size,
            ..overridden(opt)
        }) == opt,
{
}

/// One datagram a second on one connection makes a load of 16 bits a second for
/// each byte of it and of 40 bytes of headers: 8 bits to the byte, there and back.
pub proof fn law_load_of_one_datagram(opt: Opt)
    requires
        opt.packets_per_second == 1,
        opt.num_connections == 1,
    ensures
        load(opt) == 16 * opt.packet_size + 640,
{
    let size = wire_size(opt);
    assert(datagram_rate(opt) == 1);
    assert(1 * size == size) by (nonlinear_arith);
}

/// The loads of two tests with the same datagrams add up to that of one test with
/// the connections of both, if they have the same pace, and to that of one test
/// with the datagrams of both, if they have the same connections.
pub proof fn law_loads_add_up(one: Opt, other: Opt, both: Opt)
    requires
        one.packet_size == other.packet_size == both.packet_size,
        ({
            ||| {
                &&& one.packets_per_second == other.packets_per_second == both.packets_per_second
                &&& both.num_connections == one.num_connections + other.num_connections
            }
            ||| {
                &&& one.num_connections == other.num_connections == both.num_connections
                &&& both.packets_per_second == one.packets_per_second + other.packets_per_second
            }
        }),
    ensures
        load(both) == load(one) + load(other),
{
    let size = both.packet_size + 40;
    let a = one.packets_per_second as int;
    let b = other.packets_per_second as int;
    let c = one.num_connections as int;
    let d = other.num_connections as int;
    assert(a * (c + d) == a * c + a * d && (a + b) * c == a * c + b * c) by (nonlinear_arith);
    let x = datagram_rate(one);
    let y = datagram_rate(other);
    assert(datagram_rate(both) == x + y);
    assert((x + y) * size == x * size + y * size) by (nonlinear_arith);
}

/// The load depends on the pace, the connections and the size of the datagrams
/// alone.
pub proof fn law_load_depends_on_datagrams_alone(one: Opt, other: Opt)
    requires
        one.packets_per_second == other.packets_per_second,
        one.num_connections == other.num_connections,
        one.packet_size == other.packet_size,
    ensures
        load(one) == load(other),
        estimable(one) == estimable(other),
{
}

/// A load can be estimated exactly if it is below two to the 64th, and so is the
/// size of a datagram with 40 bytes of headers.
pub proof fn law_estimable_loads(opt: Opt)
    ensures
        estimable(opt) <==> load(opt) < 0x1_0000_0000_0000_0000 && opt.packet_size + 40
            < 0x1_0000_0000_0000_0000,
{
}

/// A test is within the limits as long as its load is at most 50 megabits a second
/// and its traffic below 900 megabits, and beyond them if either is more than that.
/// With exactly 900 megabits it is beyond them only with a load of 640 or 1280 bits
/// a second.
pub proof fn law_limits(opt: Opt)
    ensures
        load(opt) <= 50_000_000 && load(opt) * opt.duration < 900_000_000 ==> !too_fast(opt)
            && !too_much(opt),
        load(opt) > 50_000_000 ==> too_fast(opt),
        load(opt) * opt.duration > 900_000_000 ==> too_much(opt),
        load(opt) <= 50_000_000 && load(opt) * opt.duration == 900_000_000 ==> ((too_fast(opt)
            || too_much(opt)) <==> load(opt) == 640 || load(opt) == 1280),
{
}

/// A test that is only calculated neither runs nor is refused. Any other test runs
/// if it is forced or within the limits, and is refused if it is neither.
pub proof fn law_decisions(opt: Opt)
    ensures
        decision(opt) is CalculateOnly <==> opt.only_calc,
        decision(opt) is Refuse <==> !opt.only_calc && !opt.force && (too_fast(opt) || too_much(
            opt,
        )),
        decision(opt) is Run <==> !opt.only_calc && (opt.force || !too_fast(opt) && !too_much(opt)),
{
}

/// The load is announced unless a JSON report of nothing but the load is asked for.
pub proof fn law_announcements(opt: Opt)
    ensures
        !opt.json_mode ==> announced(opt),
        !opt.only_calc ==> announced(opt),
        opt.json_mode && opt.only_calc ==> !announced(opt),
{
}

/// The receiver listens for the time of sending and the delay after it, and the
/// clients are kept for one second more.
pub proof fn law_times(opt: Opt)
    ensures
        listening_time(opt) - opt.duration == opt.delay_after_stopping_sender,
        running_time(opt) - listening_time(opt) == 1,
{
}

/// Every second of sending adds as many datagrams as there are connections, times
/// the pace, and a test without any time for sending sends nothing.
pub proof fn law_total_grows_with_time(opt: Opt, longer: Opt)
    requires
        longer == (Opt { duration: longer.duration, ..opt }),
        longer.duration == opt.duration + 1,
    ensures
        total(longer) == total(opt) + opt.packets_per_second * opt.num_connections,
        opt.duration == 0 ==> total(opt) == 0,
        countable(opt) <==> opt.duration * opt.packets_per_second < 0x1_0000_0000_0000_0000
            && total(opt) < 0x1_0000_0000_0000_0000,
{
    let t = opt.duration as int;
    let p = opt.packets_per_second as int;
    let c = opt.num_connections as int;
    assert((t + 1) * p * c == t * p * c + p * c) by (nonlinear_arith);
    assert(0 * p * c == 0) by (nonlinear_arith);
}

} // verus!
