use turnhammer::jitter::{JitterBuffer, JITTER_CAPACITY};
use turnhammer::receiver::{is_readable, read_packet, Receiver, Wakeup};
use turnhammer::sender::{Pacing, Sender};
use turnhammer::stats::{Packet, PacketStats, Summary};
use turnhammer::timespan::TimeSpan;
use turnhammer::wire::{number_datagram, stamp_datagram};

fn packet(no: u32, millis: u64) -> Packet {
    Packet { no, rtt4: TimeSpan::from_millis(millis) }
}

fn datagram(at: TimeSpan, no: u32) -> Vec<u8> {
    let mut bytes = vec![0u8; 32];
    stamp_datagram(&mut bytes, at);
    number_datagram(&mut bytes, no);
    bytes
}

/// The figures of datagrams that come back in the given order after 100 ms.
fn measure(numbers: &[u32]) -> Option<Summary> {
    let mut receiver = Receiver::new(TimeSpan::from_secs(0), 1000);
    for &no in numbers {
        let bytes = datagram(TimeSpan::from_millis(1000), no);
        receiver.on_wakeup(TimeSpan::from_millis(1100), Some(&bytes[..]));
    }
    receiver.finish()
}

#[test]
fn brackets_at_their_edges() {
    let mut stats = PacketStats::new();
    let spans = [0, 49, 50, 179, 180, 399, 400, 999, 1000, 1999, 2000, 999_000];
    for (i, &millis) in spans.iter().enumerate() {
        stats.analyse_packet(&packet(i as u32, millis));
    }
    let summary = stats.summary().unwrap();
    assert_eq!(summary.received, 12);
    assert_eq!(summary.window, 12);
    assert_eq!(summary.badloss, 0);
    assert_eq!(summary.rtt4stats, [2, 2, 2, 2, 2, 2]);
}

#[test]
fn last_nanosecond_of_a_bracket() {
    let mut stats = PacketStats::new();
    stats.analyse_packet(&Packet { no: 1, rtt4: TimeSpan::new(0, 49_999_999) });
    stats.analyse_packet(&Packet { no: 2, rtt4: TimeSpan::new(1, 999_999_999) });
    assert_eq!(stats.summary().unwrap().rtt4stats, [1, 0, 0, 0, 1, 0]);
}

#[test]
fn repeated_number_is_left_out() {
    let mut stats = PacketStats::new();
    stats.analyse_packet(&packet(7, 10));
    stats.analyse_packet(&packet(7, 500));
    stats.analyse_packet(&packet(8, 10));
    let summary = stats.summary().unwrap();
    assert_eq!(summary.received, 2);
    assert_eq!(summary.rtt4stats, [2, 0, 0, 0, 0, 0]);
}

#[test]
fn only_long_gaps_are_bad_loss() {
    let mut stats = PacketStats::new();
    stats.analyse_packet(&packet(100, 10));
    stats.analyse_packet(&packet(150, 10));
    assert_eq!(stats.summary().unwrap().badloss, 0);
    stats.analyse_packet(&packet(201, 10));
    assert_eq!(stats.summary().unwrap().badloss, 51);
    // going back costs nothing, coming forward again does
    stats.analyse_packet(&packet(100, 10));
    assert_eq!(stats.summary().unwrap().badloss, 51);
    stats.analyse_packet(&packet(300, 10));
    let summary = stats.summary().unwrap();
    assert_eq!(summary.badloss, 251);
    assert_eq!(summary.received, 5);
    assert_eq!(summary.window, 201);
}

#[test]
fn first_packet_is_never_bad_loss() {
    let mut stats = PacketStats::new();
    stats.analyse_packet(&packet(1_000_000, 10));
    let summary = stats.summary().unwrap();
    assert_eq!(summary.badloss, 0);
    assert_eq!(summary.window, 1);
}

#[test]
fn highest_number_alone_counts_as_duplicate() {
    let mut stats = PacketStats::new();
    stats.analyse_packet(&packet(u32::MAX, 10));
    assert_eq!(stats.summary(), None);
    stats.analyse_packet(&packet(0, 10));
    let summary = stats.summary().unwrap();
    assert_eq!(summary.received, 1);
    assert_eq!(summary.window, 1u64 << 32);
}

#[test]
fn jitter_buffer_sorts_and_keeps_arrival_order_of_equals() {
    let mut buffer = JitterBuffer::new();
    for p in [packet(5, 1), packet(3, 2), packet(5, 3), packet(1, 4), packet(5, 5)] {
        assert_eq!(buffer.take_in(p), None);
    }
    let mut out = Vec::new();
    while let Some(p) = buffer.pop() {
        out.push(p);
    }
    assert_eq!(out, vec![packet(1, 4), packet(3, 2), packet(5, 1), packet(5, 3), packet(5, 5)]);
    assert_eq!(buffer.pop(), None);
}

#[test]
fn full_jitter_buffer_lets_the_lowest_go() {
    let mut buffer = JitterBuffer::new();
    for no in 0..JITTER_CAPACITY as u32 {
        assert_eq!(buffer.take_in(packet(10 + no, 1)), None);
    }
    assert_eq!(buffer.take_in(packet(5000, 1)), Some(packet(10, 1)));
    assert_eq!(buffer.take_in(packet(2, 1)), Some(packet(2, 1)));
    assert_eq!(buffer.take_in(packet(11, 9)), Some(packet(11, 1)));
    assert_eq!(buffer.pop(), Some(packet(11, 9)));
}

#[test]
fn time_under_way_is_from_sending_to_return() {
    let bytes = datagram(TimeSpan::new(12, 900_000_000), 77);
    let p = read_packet(&bytes, TimeSpan::new(14, 100_000_000));
    assert_eq!(p, Packet { no: 77, rtt4: TimeSpan::new(1, 200_000_000) });
    let p = read_packet(&bytes, TimeSpan::new(12, 900_000_000));
    assert_eq!(p.rtt4, TimeSpan::from_secs(0));
}

#[test]
fn packet_from_the_future() {
    let bytes = datagram(TimeSpan::new(12, 1), 5);
    let p = read_packet(&bytes, TimeSpan::new(12, 0));
    assert_eq!(p, Packet { no: 5, rtt4: TimeSpan::from_secs(999) });
}

#[test]
fn wakeups_until_the_deadline() {
    let mut receiver = Receiver::new(TimeSpan::from_secs(2), 3);
    let bytes = datagram(TimeSpan::from_secs(2), 0);
    assert_eq!(receiver.on_wakeup(TimeSpan::from_secs(3), None), Wakeup::Nothing);
    assert_eq!(
        receiver.on_wakeup(TimeSpan::from_secs(3), Some(&bytes[..])),
        Wakeup::Taken { first: true }
    );
    assert_eq!(
        receiver.on_wakeup(TimeSpan::from_secs(5), Some(&bytes[..])),
        Wakeup::Taken { first: false }
    );
    assert_eq!(
        receiver.on_wakeup(TimeSpan::new(5, 1), Some(&bytes[..])),
        Wakeup::Expired
    );
    assert_eq!(receiver.on_wakeup(TimeSpan::new(5, 1), None), Wakeup::Expired);
    let summary = receiver.finish().unwrap();
    assert_eq!(summary.received, 1);
    assert_eq!(summary.rtt4stats, [0, 0, 0, 0, 1, 0]);
}

#[test]
fn nothing_received() {
    let mut receiver = Receiver::new(TimeSpan::from_secs(0), 5);
    assert_eq!(receiver.finish(), None);
}

#[test]
fn complete_return_in_any_order_is_no_loss() {
    // 1500 datagrams, each one pair swapped over a distance of 400, some twice
    let mut numbers: Vec<u32> = (0..1500).collect();
    for i in 0..400 {
        numbers.swap(i, i + 400);
    }
    numbers.push(1499);
    numbers.push(1200);
    let summary = measure(&numbers).unwrap();
    assert_eq!(summary.received, 1500);
    assert_eq!(summary.window, 1500);
    assert_eq!(summary.badloss, 0);
    assert_eq!(summary.rtt4stats, [0, 1500, 0, 0, 0, 0]);
}

#[test]
fn straggler_within_the_buffer_is_in_order() {
    // number 0 arrives after 1022 higher ones
    let mut numbers: Vec<u32> = (1..1023).collect();
    numbers.push(0);
    numbers.push(1023);
    let summary = measure(&numbers).unwrap();
    assert_eq!(summary.received, 1024);
    assert_eq!(summary.window, 1024);
}

#[test]
fn duplicate_beyond_the_buffer_counts_twice() {
    let mut numbers: Vec<u32> = (0..1100).collect();
    numbers.push(0);
    let summary = measure(&numbers).unwrap();
    assert_eq!(summary.received, 1101);
    assert_eq!(summary.window, 1100);
}

#[test]
fn each_number_counts_once() {
    let summary = measure(&[4, 2, 4, 9, 2, 100, 4]).unwrap();
    assert_eq!(summary.received, 4);
    assert_eq!(summary.window, 99);
    assert_eq!(summary.badloss, 91);
}

#[test]
fn perfect_echo_is_no_loss() {
    let start = TimeSpan::from_secs(1);
    let mut sender = Sender::new(40, 50, 2, 5, start);
    let mut under_way = Vec::new();
    let mut now = start;
    loop {
        match sender.start_round(now) {
            Pacing::Finished => break,
            Pacing::SendNow => (),
            Pacing::SleepFirst(pause) => now = now.plus(&pause),
        }
        while sender.next_destination().is_some() {
            under_way.push(sender.datagram().to_vec());
        }
    }
    assert_eq!(now, TimeSpan::new(2, 980_000_000));
    let mut receiver = Receiver::new(start, 10);
    for bytes in under_way.iter().rev() {
        receiver.on_wakeup(TimeSpan::from_secs(3), Some(&bytes[..]));
    }
    for bytes in under_way.iter().take(7) {
        receiver.on_wakeup(TimeSpan::from_secs(8), Some(&bytes[..]));
    }
    let summary = receiver.finish().unwrap();
    assert_eq!(summary.received, 500);
    assert_eq!(summary.window, 500);
    assert_eq!(summary.badloss, 0);
    let counted: u32 = summary.rtt4stats.iter().sum();
    assert_eq!(counted, 500);
    // rounds 0 and 1 were both stamped at the start, before the pause
    assert_eq!(summary.rtt4stats[5], 10);
}

#[test]
fn what_did_not_return_is_lost() {
    // of 2000 numbers every third is missing, the others come back to front in
    // pieces of ten
    let mut numbers = Vec::new();
    for piece in 0..200u32 {
        for k in (0..10u32).rev() {
            let no = piece * 10 + k;
            if no % 3 != 1 || no == 1999 {
                numbers.push(no);
            }
        }
    }
    let summary = measure(&numbers).unwrap();
    assert_eq!(summary.received as usize, numbers.len());
    assert_eq!(summary.received, 1334);
    assert_eq!(summary.window, 2000);
    assert_eq!(summary.badloss, 0);
    assert_eq!(summary.rtt4stats, [0, 1334, 0, 0, 0, 0]);
}

#[test]
fn bad_loss_is_the_sum_of_long_steps() {
    let summary = measure(&[500, 10, 60, 111, 112, 500, 1000, 1050]).unwrap();
    assert_eq!(summary.badloss, 51 + 388 + 500);
    assert_eq!(summary.window, 1041);
    assert_eq!(summary.received, 7);
}

#[test]
fn window_spans_what_came_even_out_of_order() {
    let mut numbers: Vec<u32> = (5000..6500).collect();
    numbers.push(40);
    numbers.push(9000);
    let summary = measure(&numbers).unwrap();
    assert_eq!(summary.window, 9000 - 40 + 1);
    assert_eq!(summary.received, 1502);
}

#[test]
fn datagrams_that_can_be_read() {
    assert!(!is_readable(&[0u8; 15]));
    assert!(is_readable(&[0u8; 16]));
    let mut bytes = vec![0xffu8; 8];
    bytes.extend_from_slice(&999_999_999u32.to_be_bytes());
    bytes.extend_from_slice(&[0; 4]);
    assert!(is_readable(&bytes));
    bytes[8..12].copy_from_slice(&1_000_000_000u32.to_be_bytes());
    assert!(!is_readable(&bytes));
}

#[test]
fn what_a_receiver_can_take() {
    assert!(Receiver::can_listen(TimeSpan::from_secs(5), u64::MAX - 5));
    assert!(!Receiver::can_listen(TimeSpan::from_secs(5), u64::MAX - 4));
    assert!(Receiver::can_listen(TimeSpan::new(u64::MAX, 999_999_999), 0));
    let mut receiver = Receiver::new(TimeSpan::from_secs(0), 1);
    assert!(receiver.has_room());
    let bytes = datagram(TimeSpan::from_secs(0), 1);
    receiver.on_wakeup(TimeSpan::from_secs(1), Some(&bytes[..]));
    assert!(receiver.has_room());
}

#[test]
fn lengths() {
    let mut buffer = JitterBuffer::new();
    assert_eq!(buffer.len(), 0);
    buffer.take_in(packet(1, 1));
    buffer.take_in(packet(1, 1));
    assert_eq!(buffer.len(), 2);
    let mut stats = PacketStats::new();
    stats.analyse_packet(&packet(1, 1));
    stats.analyse_packet(&packet(1, 1));
    assert_eq!(stats.handled(), 2);
}
