use turnhammer::report::{
    calc_line, load_line, no_packets_line, received_line, refused_line, report_text, shares_text,
};
use turnhammer::stats::Summary;

fn summary() -> Summary {
    Summary { received: 365_652, window: 384_000, badloss: 0, rtt4stats: [0; 6] }
}

fn shares(list: [&str; 6]) -> Vec<String> {
    list.iter().map(|s| s.to_string()).collect()
}

#[test]
fn received_in_words() {
    assert_eq!(
        received_line(false, 365_652, 384_000, 384_000),
        "Received 365652 packets from 384000 window of total 384000 || "
    );
    assert_eq!(
        received_line(false, 0, 10, u64::MAX),
        "Received 0 packets from 10 window of total 18446744073709551615 || "
    );
}

#[test]
fn received_in_json() {
    assert_eq!(
        received_line(true, 1, 99, 100),
        r#","received_packets":1 ,"min_max_window":99 ,"sent_packets":100"#
    );
}

#[test]
fn nothing_received_lines() {
    assert_eq!(no_packets_line(false), "Received no packets");
    assert_eq!(no_packets_line(true), r#"{"status":"no_packets_received"}"#);
}

#[test]
fn refused_lines() {
    assert_eq!(refused_line(false), None);
    assert_eq!(refused_line(true), Some(r#"{"status":"refused"}"#));
}

#[test]
fn report_in_words() {
    let text = report_text(
        false,
        &summary(),
        384_000,
        "04.7781",
        "00.0000",
        &shares(["00.0000", "44.4745", "50.7474", "00.0000", "00.0001", "00.0002"]),
        "8.2",
    );
    assert_eq!(
        text,
        "Received 365652 packets from 384000 window of total 384000 || \
         Loss: 04.7781%   bad loss: 00.0000%\n\
         RTT4 brackets: 0-49ms: 00.0000%   180-399ms: 50.7474%  1000-1999ms: 00.0001%\n\
         \x20            50-179ms: 44.4745%   500-999ms: 00.0000%      2000+ms: 00.0002%\n\
         \x20<<<  Overall score:  8.2 / 10.0  >>>\n"
    );
}

#[test]
fn report_in_json() {
    let text =
        report_text(true, &summary(), 400_000, "1", "2", &shares(["3", "4", "5", "6", "7", "8"]), "9.0");
    let expected = concat_lines(&[
        r#"{"status":"ok""#,
        r#","received_packets":365652 ,"min_max_window":384000 ,"sent_packets":400000"#,
        r#","loss":1 ,"bad_loss":2"#,
        r#","rtt4":{"0_49":3 ,"50_179":4 ,"180_399":5 ,"400_999":6 ,"1000_1999":7 ,"2000+":8}"#,
        r#","score":9.0"#,
        r#"}"#,
    ]);
    assert_eq!(text, expected);
}

fn concat_lines(lines: &[&str]) -> String {
    lines.iter().map(|line| format!("{}\n", line)).collect()
}

#[test]
fn shares_alone() {
    let text = shares_text(true, "a", "b", &shares(["0", "1", "2", "3", "4", "5"]), "s");
    assert!(text.starts_with(r#","loss":a ,"bad_loss":b"#));
    assert!(text.ends_with(",\"score\":s\n"));
}

#[test]
fn load_lines() {
    assert_eq!(
        load_line("11.878", "158.379"),
        "The test would do approx 11.878 Mbit/s and consume 158.379 megabytes of traffic"
    );
    assert_eq!(calc_line(false, "1", "2"), None);
    assert_eq!(
        calc_line(true, "11878", "158378667").as_deref(),
        Some(r#"{"status":"calc", "kpbs":11878, "bytes":158378667}"#)
    );
}
