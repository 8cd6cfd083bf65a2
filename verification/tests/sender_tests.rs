use turnhammer::sender::{Pacing, Sender, WARM_UP_NANOS};
use turnhammer::timespan::TimeSpan;
use turnhammer::wire::{read_header, Header};

#[test]
fn rounds_are_paced() {
    let start = TimeSpan::new(10, 500_000_000);
    let mut sender = Sender::new(16, 5, 1, 1, start);
    assert_eq!(sender.start_round(start), Pacing::SendNow);
    assert_eq!(sender.next_destination(), Some(0));
    assert_eq!(sender.next_destination(), None);
    assert_eq!(
        sender.start_round(TimeSpan::new(10, 600_000_000)),
        Pacing::SleepFirst(TimeSpan::new(0, 100_000_000))
    );
    assert_eq!(sender.next_destination(), Some(0));
    assert_eq!(sender.next_destination(), None);
    // late: no pause
    assert_eq!(sender.start_round(TimeSpan::new(10, 900_000_000)), Pacing::SendNow);
    // exactly due
    assert_eq!(sender.next_destination(), Some(0));
    assert_eq!(sender.start_round(TimeSpan::new(11, 100_000_000)), Pacing::SendNow);
    assert_eq!(sender.next_destination(), Some(0));
    assert_eq!(
        sender.start_round(TimeSpan::new(11, 0)),
        Pacing::SleepFirst(TimeSpan::new(0, 300_000_000))
    );
    assert_eq!(sender.next_destination(), Some(0));
    assert_eq!(sender.start_round(TimeSpan::new(12, 0)), Pacing::Finished);
    assert_eq!(sender.start_round(TimeSpan::new(13, 0)), Pacing::Finished);
}

#[test]
fn pace_is_whole_nanoseconds() {
    let start = TimeSpan::from_secs(0);
    let mut sender = Sender::new(16, 3, 1, 0, start);
    assert_eq!(sender.start_round(start), Pacing::SendNow);
    assert_eq!(sender.start_round(start), Pacing::SleepFirst(TimeSpan::new(0, 333_333_333)));
    assert_eq!(sender.start_round(start), Pacing::SleepFirst(TimeSpan::new(0, 666_666_666)));
    assert_eq!(sender.start_round(start), Pacing::Finished);
}

#[test]
fn run_sends_everything_once() {
    let start = TimeSpan::from_secs(1);
    let mut sender = Sender::new(20, 2, 3, 4, start);
    let mut sent = Vec::new();
    let mut round = 0u64;
    while sender.start_round(TimeSpan::from_secs(100 + round)) != Pacing::Finished {
        while let Some(to) = sender.next_destination() {
            sent.push((to, sender.datagram().to_vec()));
        }
        round += 1;
    }
    assert_eq!(round, 6);
    assert_eq!(sent.len(), 24);
    for (k, (to, datagram)) in sent.iter().enumerate() {
        assert_eq!(*to, k % 4);
        assert_eq!(datagram.len(), 20);
        assert_eq!(
            read_header(datagram),
            Header { secs: 100 + (k / 4) as u64, nanos: 0, no: k as u32 }
        );
        assert_eq!(&datagram[16..], &[0u8; 4][..]);
    }
}

#[test]
fn datagram_bears_the_time_before_the_pause() {
    let start = TimeSpan::from_secs(5);
    let mut sender = Sender::new(16, 1, 2, 1, start);
    assert_eq!(
        sender.start_round(TimeSpan::new(4, 250_000_000)),
        Pacing::SleepFirst(TimeSpan::new(0, 750_000_000))
    );
    sender.next_destination();
    assert_eq!(
        read_header(sender.datagram()),
        Header { secs: 4, nanos: 250_000_000, no: 0 }
    );
}

#[test]
fn no_duration_no_rounds() {
    let mut sender = Sender::new(0, 7, 0, 3, TimeSpan::from_secs(0));
    assert_eq!(sender.start_round(TimeSpan::from_secs(0)), Pacing::Finished);
    assert_eq!(sender.next_destination(), None);
    assert_eq!(sender.datagram().len(), 0);
}

#[test]
fn what_can_be_sent() {
    let start = TimeSpan::from_secs(0);
    assert!(Sender::can_send(16, 5, 5, 1, start));
    // no pace
    assert!(!Sender::can_send(16, 0, 5, 1, start));
    // no room for the header
    assert!(!Sender::can_send(15, 5, 5, 1, start));
    assert!(Sender::can_send(12, 5, 5, 0, start));
    assert!(!Sender::can_send(11, 5, 5, 0, start));
    assert!(Sender::can_send(0, 5, 0, 1, start));
    // a duration is never cut
    assert!(Sender::can_send(16, 1, u32::MAX as u64, 1, start));
    assert!(!Sender::can_send(16, 1, 1 << 32, 1, start));
    assert!(!Sender::can_send(16, 1, u64::MAX, 1, start));
    // numbers fit into 32 bits
    assert!(Sender::can_send(16, 1, 0xffff, 0x1_0001, start));
    assert!(!Sender::can_send(16, 1, 0x1_0000, 0x1_0000, start));
    // the last round is due at a point in time
    let late = TimeSpan::new(u64::MAX, 0);
    assert!(Sender::can_send(16, 2, 1, 1, late));
    assert!(!Sender::can_send(16, 1, 2, 1, late));
}

#[test]
fn every_round_is_due_within_the_duration() {
    let start = TimeSpan::from_secs(0);
    let mut sender = Sender::new(16, 2, 3, 0, start);
    let mut pacing = sender.start_round(start);
    let mut last = pacing;
    while pacing != Pacing::Finished {
        last = pacing;
        pacing = sender.start_round(start);
    }
    // six rounds, the last one half a second before the end
    assert_eq!(last, Pacing::SleepFirst(TimeSpan::from_millis(2500)));
}

#[test]
fn warm_up_is_half_a_second() {
    assert_eq!(TimeSpan::from_nanos(WARM_UP_NANOS), TimeSpan::from_millis(500));
}

/// What is sent before sending breaks off, with the clock a second on in every round.
fn send_up_to(limit: usize) -> Vec<(usize, Vec<u8>)> {
    let mut sender = Sender::new(16, 2, 2, 3, TimeSpan::from_secs(0));
    let mut sent = Vec::new();
    let mut now = 10;
    while sender.start_round(TimeSpan::from_secs(now)) != Pacing::Finished {
        while let Some(to) = sender.next_destination() {
            if sent.len() == limit {
                return sent;
            }
            sent.push((to, sender.datagram().to_vec()));
        }
        now += 1;
    }
    sent
}

#[test]
fn broken_off_run_sent_a_beginning() {
    let whole = send_up_to(1000);
    assert_eq!(whole.len(), 12);
    for k in 0..12 {
        assert_eq!(send_up_to(k), whole[..k].to_vec());
    }
}
