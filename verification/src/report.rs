//! The words of the report. Shares and scores come in as text, in whatever form
//! the caller wants them shown.

use vstd::prelude::*;
use vstd::string::StringExecFns;

use crate::stats::Summary;

verus! {

/// The decimal digit `d`.
pub open spec fn digit(d: nat) -> char {
    ('0' as nat + d) as char
}

/// The decimal digits of `n`, without leading zeros.
pub open spec fn decimal(n: nat) -> Seq<char>
    decreases n,
{
    if n < 10 {
        seq![digit(n)]
    } else {
        decimal(n / 10).push(digit(n % 10))
    }
}

fn digit_text(d: u64) -> (text: &'static str)
    requires
        d < 10,
    ensures
        text@ == seq![digit(d as nat)],
{
    proof {
        reveal_strlit("0");
        reveal_strlit("1");
        reveal_strlit("2");
        reveal_strlit("3");
        reveal_strlit("4");
        reveal_strlit("5");
        reveal_strlit("6");
        reveal_strlit("7");
        reveal_strlit("8");
        reveal_strlit("9");
    }
    let text = match d {
        0 => "0",
        1 => "1",
        2 => "2",
        3 => "3",
        4 => "4",
        5 => "5",
        6 => "6",
        7 => "7",
        8 => "8",
        _ => "9",
    };
    assert(text@ =~= seq![digit(d as nat)]);
    text
}

/// Writes the decimal digits of `n` behind `text`.
fn append_decimal(text: &mut String, n: u64)
    ensures
        final(text)@ == old(text)@ + decimal(n as nat),
    decreases n,
{
    let ghost before = text@;
    if n >= 10 {
        append_decimal(text, n / 10);
    }
    text.append(digit_text(n % 10));
    assert(text@ =~= before + decimal(n as nat));
}

/// The whole report of a measurement in which nothing was counted.
pub fn no_packets_line(json_mode: bool) -> (line: &'static str)
    ensures
        line@ == if json_mode {
            "{\"status\":\"no_packets_received\"}"@
        } else {
            "Received no packets"@
        },
{
    if json_mode {
        "{\"status\":\"no_packets_received\"}"
    } else {
        "Received no packets"
    }
}

/// The report of a test that was refused: nothing but in JSON.
pub fn refused_line(json_mode: bool) -> (line: Option<&'static str>)
    ensures
        line is Some == json_mode,
        json_mode ==> line->0@ == "{\"status\":\"refused\"}"@,
{
    if json_mode {
        Some("{\"status\":\"refused\"}")
    } else {
        None
    }
}

/// How many packets came back, from how wide a window, and of how many sent.
pub open spec fn received_words(json_mode: bool, received: nat, window: nat, total: nat) -> Seq<char> {
    if json_mode {
        ",\"received_packets\":"@ + decimal(received) + " ,\"min_max_window\":"@ + decimal(window)
            + " ,\"sent_packets\":"@ + decimal(total)
    } else {
        "Received "@ + decimal(received) + " packets from "@ + decimal(window)
            + " window of total "@ + decimal(total) + " || "@
    }
}

/// The line that says how many packets came back, from how wide a window, and
/// of how many sent.
pub fn received_line(json_mode: bool, received: u32, window: u64, total: u64) -> (line: String)
    ensures
        line@ == received_words(json_mode, received as nat, window as nat, total as nat),
{
    let mut line: String = String::new();
    if json_mode {
        line.append(",\"received_packets\":");
        append_decimal(&mut line, received as u64);
        line.append(" ,\"min_max_window\":");
        append_decimal(&mut line, window);
        line.append(" ,\"sent_packets\":");
        append_decimal(&mut line, total);
    } else {
        line.append("Received ");
        append_decimal(&mut line, received as u64);
        line.append(" packets from ");
        append_decimal(&mut line, window);
        line.append(" window of total ");
        append_decimal(&mut line, total);
        line.append(" || ");
    }
    assert(line@ =~= received_words(json_mode, received as nat, window as nat, total as nat));
    line
}

/// The shares of the window that were lost, lost badly, and under way for a time
/// in each bracket, and the score of the measurement.
pub open spec fn shares_words(
    json_mode: bool,
    loss: Seq<char>,
    bad_loss: Seq<char>,
    rtt4: Seq<Seq<char>>,
    score: Seq<char>,
) -> Seq<char> {
    if json_mode {
        ",\"loss\":"@ + loss + " ,\"bad_loss\":"@ + bad_loss + "\n,\"rtt4\":{\"0_49\":"@ + rtt4[0]
            + " ,\"50_179\":"@ + rtt4[1] + " ,\"180_399\":"@ + rtt4[2] + " ,\"400_999\":"@ + rtt4[3]
            + " ,\"1000_1999\":"@ + rtt4[4] + " ,\"2000+\":"@ + rtt4[5] + "}\n,\"score\":"@ + score
            + "\n"@
    } else {
        "Loss: "@ + loss + "%   bad loss: "@ + bad_loss + "%\nRTT4 brackets: 0-49ms: "@ + rtt4[0]
            + "%   180-399ms: "@ + rtt4[2] + "%  1000-1999ms: "@ + rtt4[4]
            + "%\n             50-179ms: "@ + rtt4[1] + "%   500-999ms: "@ + rtt4[3]
            + "%      2000+ms: "@ + rtt4[5] + "%\n <<<  Overall score:  "@ + score
            + " / 10.0  >>>\n"@
    }
}

/// The texts of `list`.
pub open spec fn texts(list: Seq<String>) -> Seq<Seq<char>> {
    list.map_values(|s: String| s@)
}

/// The part of the report that shows shares of the window and the score.
pub fn shares_text(
    json_mode: bool,
    loss: &str,
    bad_loss: &str,
    rtt4: &Vec<String>,
    score: &str,
) -> (text: String)
    requires
        rtt4@.len() == 6,
    ensures
        text@ == shares_words(json_mode, loss@, bad_loss@, texts(rtt4@), score@),
{
    let mut text: String = String::new();
    if json_mode {
        text.append(",\"loss\":");
        text.append(loss);
        text.append(" ,\"bad_loss\":");
        text.append(bad_loss);
        text.append("\n,\"rtt4\":{\"0_49\":");
        text.append(rtt4[0].as_str());
        text.append(" ,\"50_179\":");
        text.append(rtt4[1].as_str());
        text.append(" ,\"180_399\":");
        text.append(rtt4[2].as_str());
        text.append(" ,\"400_999\":");
        text.append(rtt4[3].as_str());
        text.append(" ,\"1000_1999\":");
        text.append(rtt4[4].as_str());
        text.append(" ,\"2000+\":");
        text.append(rtt4[5].as_str());
        text.append("}\n,\"score\":");
        text.append(score);
        text.append("\n");
    } else {
        text.append("Loss: ");
        text.append(loss);
        text.append("%   bad loss: ");
        text.append(bad_loss);
        text.append("%\nRTT4 brackets: 0-49ms: ");
        text.append(rtt4[0].as_str());
        text.append("%   180-399ms: ");
        text.append(rtt4[2].as_str());
        text.append("%  1000-1999ms: ");
        text.append(rtt4[4].as_str());
        text.append("%\n             50-179ms: ");
        text.append(rtt4[1].as_str());
        text.append("%   500-999ms: ");
        text.append(rtt4[3].as_str());
        text.append("%      2000+ms: ");
        text.append(rtt4[5].as_str());
        text.append("%\n <<<  Overall score:  ");
        text.append(score);
        text.append(" / 10.0  >>>\n");
    }
    assert(text@ =~= shares_words(json_mode, loss@, bad_loss@, texts(rtt4@), score@));
    text
}

/// The whole report: in JSON one object, in words four lines.
pub open spec fn report_words(
    json_mode: bool,
    received: nat,
    window: nat,
    total: nat,
    shares: Seq<char>,
) -> Seq<char> {
    if json_mode {
        "{\"status\":\"ok\"\n"@ + received_words(json_mode, received, window, total) + "\n"@ + shares
            + "}\n"@
    } else {
        received_words(json_mode, received, window, total) + shares
    }
}

/// The whole report of a measurement in which something was counted.
pub fn report_text(
    json_mode: bool,
    summary: &Summary,
    total: u64,
    loss: &str,
    bad_loss: &str,
    rtt4: &Vec<String>,
    score: &str,
) -> (text: String)
    requires
        rtt4@.len() == 6,
    ensures
        text@ == report_words(
            json_mode,
            summary.received as nat,
            summary.window as nat,
            total as nat,
            shares_words(json_mode, loss@, bad_loss@, texts(rtt4@), score@),
        ),
{
    let received: String = received_line(json_mode, summary.received, summary.window, total);
    let shares: String = shares_text(json_mode, loss, bad_loss, rtt4, score);
    let mut text: String = String::new();
    if json_mode {
        text.append("{\"status\":\"ok\"\n");
        text.append(received.as_str());
        text.append("\n");
        text.append(shares.as_str());
        text.append("}\n");
    } else {
        text.append(received.as_str());
        text.append(shares.as_str());
    }
    assert(text@ =~= report_words(
        json_mode,
        summary.received as nat,
        summary.window as nat,
        total as nat,
        shares@,
    ));
    text
}

/// The load of a test, in words.
pub open spec fn load_words(mbps: Seq<char>, megabytes: Seq<char>) -> Seq<char> {
    "The test would do approx "@ + mbps + " Mbit/s and consume "@ + megabytes
        + " megabytes of traffic"@
}

/// The line that announces the load of a test.
pub fn load_line(mbps: &str, megabytes: &str) -> (line: String)
    ensures
        line@ == load_words(mbps@, megabytes@),
{
    let mut line: String = String::new();
    line.append("The test would do approx ");
    line.append(mbps);
    line.append(" Mbit/s and consume ");
    line.append(megabytes);
    line.append(" megabytes of traffic");
    assert(line@ =~= load_words(mbps@, megabytes@));
    line
}

/// The load of a test that is only calculated, in JSON.
pub open spec fn calc_words(kbps: Seq<char>, bytes: Seq<char>) -> Seq<char> {
    "{\"status\":\"calc\", \"kpbs\":"@ + kbps + ", \"bytes\":"@ + bytes + "}"@
}

/// The report of a test that is only calculated: nothing but in JSON.
pub fn calc_line(json_mode: bool, kbps: &str, bytes: &str) -> (line: Option<String>)
    ensures
        line is Some == json_mode,
        json_mode ==> line->0@ == calc_words(kbps@, bytes@),
{
    if !json_mode {
        return None;
    }
    let mut line: String = String::new();
    line.append("{\"status\":\"calc\", \"kpbs\":");
    line.append(kbps);
    line.append(", \"bytes\":");
    line.append(bytes);
    line.append("}");
    assert(line@ =~= calc_words(kbps@, bytes@));
    Some(line)
}

/// `words` is made of `before`, `label`, the figure, `mark` and `after`, whatever
/// the figure.
pub open spec fn frames(
    words: spec_fn(Seq<char>) -> Seq<char>,
    before: Seq<char>,
    label: Seq<char>,
    mark: Seq<char>,
    after: Seq<char>,
) -> bool {
    forall|figure: Seq<char>| #[trigger] words(figure) =~= before + label + figure + mark
        + after
}

/// `words` shows the figure between `label` and `mark`, whatever the figure, and
/// the rest of the words does not depend on it.
pub open spec fn shows(
    words: spec_fn(Seq<char>) -> Seq<char>,
    label: Seq<char>,
    mark: Seq<char>,
) -> bool {
    exists|before: Seq<char>, after: Seq<char>| frames(words, before, label, mark, after)
}

/// The lost share stands behind its own label, in words as in JSON, whatever the
/// figures are.
pub proof fn law_loss_stands_behind_its_label(
    bad_loss: Seq<char>,
    rtt4: Seq<Seq<char>>,
    score: Seq<char>,
)
    requires
        rtt4.len() == 6,
    ensures
        shows(
            |figure: Seq<char>| shares_words(false, figure, bad_loss, rtt4, score),
            "Loss: "@,
            "%"@,
        ),
        shows(
            |figure: Seq<char>| shares_words(true, figure, bad_loss, rtt4, score),
            "\"loss\":"@,
            " ,"@,
        ),
{
    assert(shows(
        |figure: Seq<char>| shares_words(false, figure, bad_loss, rtt4, score),
        "Loss: "@,
        "%"@,
    )) by {
        reveal_strlit("%   bad loss: ");
        reveal_strlit("%");
        reveal_strlit("   bad loss: ");
        assert("%   bad loss: "@ =~= "%"@ + "   bad loss: "@);
        assert(frames(
            |figure: Seq<char>| shares_words(false, figure, bad_loss, rtt4, score),
            Seq::<char>::empty(),
            "Loss: "@,
            "%"@,
            "   bad loss: "@ + bad_loss + "%\nRTT4 brackets: 0-49ms: "@ + rtt4[0]
                + "%   180-399ms: "@ + rtt4[2] + "%  1000-1999ms: "@ + rtt4[4]
                + "%\n             50-179ms: "@ + rtt4[1] + "%   500-999ms: "@ + rtt4[3]
                + "%      2000+ms: "@ + rtt4[5] + "%\n <<<  Overall score:  "@ + score
                + " / 10.0  >>>\n"@,
        ));
    }
    assert(shows(
        |figure: Seq<char>| shares_words(true, figure, bad_loss, rtt4, score),
        "\"loss\":"@,
        " ,"@,
    )) by {
        reveal_strlit(",\"loss\":");
        reveal_strlit(",");
        reveal_strlit("\"loss\":");
        reveal_strlit(" ,\"bad_loss\":");
        reveal_strlit(" ,");
        reveal_strlit("\"bad_loss\":");
        assert(",\"loss\":"@ =~= ","@ + "\"loss\":"@);
        assert(" ,\"bad_loss\":"@ =~= " ,"@ + "\"bad_loss\":"@);
        assert(frames(
            |figure: Seq<char>| shares_words(true, figure, bad_loss, rtt4, score),
            ","@,
            "\"loss\":"@,
            " ,"@,
            "\"bad_loss\":"@ + bad_loss + "\n,\"rtt4\":{\"0_49\":"@ + rtt4[0]
                + " ,\"50_179\":"@ + rtt4[1] + " ,\"180_399\":"@ + rtt4[2] + " ,\"400_999\":"@
                + rtt4[3] + " ,\"1000_1999\":"@ + rtt4[4] + " ,\"2000+\":"@ + rtt4[5]
                + "}\n,\"score\":"@ + score + "\n"@,
        ));
    }
}

/// The badly lost share stands behind its own label, in words as in JSON, whatever
/// the figures are.
pub proof fn law_bad_loss_stands_behind_its_label(
    loss: Seq<char>,
    rtt4: Seq<Seq<char>>,
    score: Seq<char>,
)
    requires
        rtt4.len() == 6,
    ensures
        shows(
            |figure: Seq<char>| shares_words(false, loss, figure, rtt4, score),
            "bad loss: "@,
            "%"@,
        ),
        shows(
            |figure: Seq<char>| shares_words(true, loss, figure, rtt4, score),
            "\"bad_loss\":"@,
            "\n,"@,
        ),
{
    assert(shows(
        |figure: Seq<char>| shares_words(false, loss, figure, rtt4, score),
        "bad loss: "@,
        "%"@,
    )) by {
        reveal_strlit("%   bad loss: ");
        reveal_strlit("%   ");
        reveal_strlit("bad loss: ");
        reveal_strlit("%\nRTT4 brackets: 0-49ms: ");
        reveal_strlit("%");
        reveal_strlit("\nRTT4 brackets: 0-49ms: ");
        assert("%   bad loss: "@ =~= "%   "@ + "bad loss: "@);
        assert("%\nRTT4 brackets: 0-49ms: "@ =~= "%"@ + "\nRTT4 brackets: 0-49ms: "@);
        assert(frames(
            |figure: Seq<char>| shares_words(false, loss, figure, rtt4, score),
            "Loss: "@ + loss + "%   "@,
            "bad loss: "@,
            "%"@,
            "\nRTT4 brackets: 0-49ms: "@ + rtt4[0] + "%   180-399ms: "@ + rtt4[2]
                + "%  1000-1999ms: "@ + rtt4[4] + "%\n             50-179ms: "@ + rtt4[1]
                + "%   500-999ms: "@ + rtt4[3] + "%      2000+ms: "@ + rtt4[5]
                + "%\n <<<  Overall score:  "@ + score + " / 10.0  >>>\n"@,
        ));
    }
    assert(shows(
        |figure: Seq<char>| shares_words(true, loss, figure, rtt4, score),
        "\"bad_loss\":"@,
        "\n,"@,
    )) by {
        reveal_strlit(" ,\"bad_loss\":");
        reveal_strlit(" ,");
        reveal_strlit("\"bad_loss\":");
        reveal_strlit("\n,\"rtt4\":{\"0_49\":");
        reveal_strlit("\n,");
        reveal_strlit("\"rtt4\":{\"0_49\":");
        assert(" ,\"bad_loss\":"@ =~= " ,"@ + "\"bad_loss\":"@);
        assert("\n,\"rtt4\":{\"0_49\":"@ =~= "\n,"@ + "\"rtt4\":{\"0_49\":"@);
        assert(frames(
            |figure: Seq<char>| shares_words(true, loss, figure, rtt4, score),
            ",\"loss\":"@ + loss + " ,"@,
            "\"bad_loss\":"@,
            "\n,"@,
            "\"rtt4\":{\"0_49\":"@ + rtt4[0] + " ,\"50_179\":"@ + rtt4[1] + " ,\"180_399\":"@
                + rtt4[2] + " ,\"400_999\":"@ + rtt4[3] + " ,\"1000_1999\":"@ + rtt4[4]
                + " ,\"2000+\":"@ + rtt4[5] + "}\n,\"score\":"@ + score + "\n"@,
        ));
    }
}

/// The share of the first bracket stands behind its own label, in words as in JSON,
/// whatever the figures are.
pub proof fn law_first_bracket_stands_behind_its_label(
    loss: Seq<char>,
    bad_loss: Seq<char>,
    rtt4: Seq<Seq<char>>,
    score: Seq<char>,
)
    requires
        rtt4.len() == 6,
    ensures
        shows(
            |figure: Seq<char>| shares_words(false, loss, bad_loss, rtt4.update(0, figure), score),
            " 0-49ms: "@,
            "%"@,
        ),
        shows(
            |figure: Seq<char>| shares_words(true, loss, bad_loss, rtt4.update(0, figure), score),
            "\"0_49\":"@,
            " ,"@,
        ),
{
    assert(shows(
        |figure: Seq<char>| shares_words(false, loss, bad_loss, rtt4.update(0, figure), score),
        " 0-49ms: "@,
        "%"@,
    )) by {
        reveal_strlit("%\nRTT4 brackets: 0-49ms: ");
        reveal_strlit("%\nRTT4 brackets:");
        reveal_strlit(" 0-49ms: ");
        reveal_strlit("%   180-399ms: ");
        reveal_strlit("%");
        reveal_strlit("   180-399ms: ");
        assert("%\nRTT4 brackets: 0-49ms: "@ =~= "%\nRTT4 brackets:"@ + " 0-49ms: "@);
        assert("%   180-399ms: "@ =~= "%"@ + "   180-399ms: "@);
        assert(frames(
            |figure: Seq<char>| shares_words(false, loss, bad_loss, rtt4.update(0, figure), score),
            "Loss: "@ + loss + "%   bad loss: "@ + bad_loss + "%\nRTT4 brackets:"@,
            " 0-49ms: "@,
            "%"@,
            "   180-399ms: "@ + rtt4[2] + "%  1000-1999ms: "@ + rtt4[4]
                + "%\n             50-179ms: "@ + rtt4[1] + "%   500-999ms: "@ + rtt4[3]
                + "%      2000+ms: "@ + rtt4[5] + "%\n <<<  Overall score:  "@ + score
                + " / 10.0  >>>\n"@,
        ));
    }
    assert(shows(
        |figure: Seq<char>| shares_words(true, loss, bad_loss, rtt4.update(0, figure), score),
        "\"0_49\":"@,
        " ,"@,
    )) by {
        reveal_strlit("\n,\"rtt4\":{\"0_49\":");
        reveal_strlit("\n,\"rtt4\":{");
        reveal_strlit("\"0_49\":");
        reveal_strlit(" ,\"50_179\":");
        reveal_strlit(" ,");
        reveal_strlit("\"50_179\":");
        assert("\n,\"rtt4\":{\"0_49\":"@ =~= "\n,\"rtt4\":{"@ + "\"0_49\":"@);
        assert(" ,\"50_179\":"@ =~= " ,"@ + "\"50_179\":"@);
        assert(frames(
            |figure: Seq<char>| shares_words(true, loss, bad_loss, rtt4.update(0, figure), score),
            ",\"loss\":"@ + loss + " ,\"bad_loss\":"@ + bad_loss + "\n,\"rtt4\":{"@,
            "\"0_49\":"@,
            " ,"@,
            "\"50_179\":"@ + rtt4[1] + " ,\"180_399\":"@ + rtt4[2] + " ,\"400_999\":"@
                + rtt4[3] + " ,\"1000_1999\":"@ + rtt4[4] + " ,\"2000+\":"@ + rtt4[5]
                + "}\n,\"score\":"@ + score + "\n"@,
        ));
    }
}

/// The share of the second bracket stands behind its own label, in words as in JSON,
/// whatever the figures are.
pub proof fn law_second_bracket_stands_behind_its_label(
    loss: Seq<char>,
    bad_loss: Seq<char>,
    rtt4: Seq<Seq<char>>,
    score: Seq<char>,
)
    requires
        rtt4.len() == 6,
    ensures
        shows(
            |figure: Seq<char>| shares_words(false, loss, bad_loss, rtt4.update(1, figure), score),
            " 50-179ms: "@,
            "%"@,
        ),
        shows(
            |figure: Seq<char>| shares_words(true, loss, bad_loss, rtt4.update(1, figure), score),
            "\"50_179\":"@,
            " ,"@,
        ),
{
    assert(shows(
        |figure: Seq<char>| shares_words(false, loss, bad_loss, rtt4.update(1, figure), score),
        " 50-179ms: "@,
        "%"@,
    )) by {
        reveal_strlit("%\n             50-179ms: ");
        reveal_strlit("%\n            ");
        reveal_strlit(" 50-179ms: ");
        reveal_strlit("%   500-999ms: ");
        reveal_strlit("%");
        reveal_strlit("   500-999ms: ");
        assert("%\n             50-179ms: "@ =~= "%\n            "@ + " 50-179ms: "@);
        assert("%   500-999ms: "@ =~= "%"@ + "   500-999ms: "@);
        assert(frames(
            |figure: Seq<char>| shares_words(false, loss, bad_loss, rtt4.update(1, figure), score),
            "Loss: "@ + loss + "%   bad loss: "@ + bad_loss + "%\nRTT4 brackets: 0-49ms: "@
                + rtt4[0] + "%   180-399ms: "@ + rtt4[2] + "%  1000-1999ms: "@ + rtt4[4]
                + "%\n            "@,
            " 50-179ms: "@,
            "%"@,
            "   500-999ms: "@ + rtt4[3] + "%      2000+ms: "@ + rtt4[5]
                + "%\n <<<  Overall score:  "@ + score + " / 10.0  >>>\n"@,
        ));
    }
    assert(shows(
        |figure: Seq<char>| shares_words(true, loss, bad_loss, rtt4.update(1, figure), score),
        "\"50_179\":"@,
        " ,"@,
    )) by {
        reveal_strlit(" ,\"50_179\":");
        reveal_strlit(" ,");
        reveal_strlit("\"50_179\":");
        reveal_strlit(" ,\"180_399\":");
        reveal_strlit("\"180_399\":");
        assert(" ,\"50_179\":"@ =~= " ,"@ + "\"50_179\":"@);
        assert(" ,\"180_399\":"@ =~= " ,"@ + "\"180_399\":"@);
        assert(frames(
            |figure: Seq<char>| shares_words(true, loss, bad_loss, rtt4.update(1, figure), score),
            ",\"loss\":"@ + loss + " ,\"bad_loss\":"@ + bad_loss + "\n,\"rtt4\":{\"0_49\":"@
                + rtt4[0] + " ,"@,
            "\"50_179\":"@,
            " ,"@,
            "\"180_399\":"@ + rtt4[2] + " ,\"400_999\":"@ + rtt4[3] + " ,\"1000_1999\":"@
                + rtt4[4] + " ,\"2000+\":"@ + rtt4[5] + "}\n,\"score\":"@ + score + "\n"@,
        ));
    }
}

/// The share of the third bracket stands behind its own label, in words as in JSON,
/// whatever the figures are.
pub proof fn law_third_bracket_stands_behind_its_label(
    loss: Seq<char>,
    bad_loss: Seq<char>,
    rtt4: Seq<Seq<char>>,
    score: Seq<char>,
)
    requires
        rtt4.len() == 6,
    ensures
        shows(
            |figure: Seq<char>| shares_words(false, loss, bad_loss, rtt4.update(2, figure), score),
            " 180-399ms: "@,
            "%"@,
        ),
        shows(
            |figure: Seq<char>| shares_words(true, loss, bad_loss, rtt4.update(2, figure), score),
            "\"180_399\":"@,
            " ,"@,
        ),
{
    assert(shows(
        |figure: Seq<char>| shares_words(false, loss, bad_loss, rtt4.update(2, figure), score),
        " 180-399ms: "@,
        "%"@,
    )) by {
        reveal_strlit("%   180-399ms: ");
        reveal_strlit("%  ");
        reveal_strlit(" 180-399ms: ");
        reveal_strlit("%  1000-1999ms: ");
        reveal_strlit("%");
        reveal_strlit("  1000-1999ms: ");
        assert("%   180-399ms: "@ =~= "%  "@ + " 180-399ms: "@);
        assert("%  1000-1999ms: "@ =~= "%"@ + "  1000-1999ms: "@);
        assert(frames(
            |figure: Seq<char>| shares_words(false, loss, bad_loss, rtt4.update(2, figure), score),
            "Loss: "@ + loss + "%   bad loss: "@ + bad_loss + "%\nRTT4 brackets: 0-49ms: "@
                + rtt4[0] + "%  "@,
            " 180-399ms: "@,
            "%"@,
            "  1000-1999ms: "@ + rtt4[4] + "%\n             50-179ms: "@ + rtt4[1]
                + "%   500-999ms: "@ + rtt4[3] + "%      2000+ms: "@ + rtt4[5]
                + "%\n <<<  Overall score:  "@ + score + " / 10.0  >>>\n"@,
        ));
    }
    assert(shows(
        |figure: Seq<char>| shares_words(true, loss, bad_loss, rtt4.update(2, figure), score),
        "\"180_399\":"@,
        " ,"@,
    )) by {
        reveal_strlit(" ,\"180_399\":");
        reveal_strlit(" ,");
        reveal_strlit("\"180_399\":");
        reveal_strlit(" ,\"400_999\":");
        reveal_strlit("\"400_999\":");
        assert(" ,\"180_399\":"@ =~= " ,"@ + "\"180_399\":"@);
        assert(" ,\"400_999\":"@ =~= " ,"@ + "\"400_999\":"@);
        assert(frames(
            |figure: Seq<char>| shares_words(true, loss, bad_loss, rtt4.update(2, figure), score),
            ",\"loss\":"@ + loss + " ,\"bad_loss\":"@ + bad_loss + "\n,\"rtt4\":{\"0_49\":"@
                + rtt4[0] + " ,\"50_179\":"@ + rtt4[1] + " ,"@,
            "\"180_399\":"@,
            " ,"@,
            "\"400_999\":"@ + rtt4[3] + " ,\"1000_1999\":"@ + rtt4[4] + " ,\"2000+\":"@
                + rtt4[5] + "}\n,\"score\":"@ + score + "\n"@,
        ));
    }
}

/// The share of the fourth bracket stands behind its own label, in words as in JSON,
/// whatever the figures are.
pub proof fn law_fourth_bracket_stands_behind_its_label(
    loss: Seq<char>,
    bad_loss: Seq<char>,
    rtt4: Seq<Seq<char>>,
    score: Seq<char>,
)
    requires
        rtt4.len() == 6,
    ensures
        shows(
            |figure: Seq<char>| shares_words(false, loss, bad_loss, rtt4.update(3, figure), score),
            " 500-999ms: "@,
            "%"@,
        ),
        shows(
            |figure: Seq<char>| shares_words(true, loss, bad_loss, rtt4.update(3, figure), score),
            "\"400_999\":"@,
            " ,"@,
        ),
{
    assert(shows(
        |figure: Seq<char>| shares_words(false, loss, bad_loss, rtt4.update(3, figure), score),
        " 500-999ms: "@,
        "%"@,
    )) by {
        reveal_strlit("%   500-999ms: ");
        reveal_strlit("%  ");
        reveal_strlit(" 500-999ms: ");
        reveal_strlit("%      2000+ms: ");
        reveal_strlit("%");
        reveal_strlit("      2000+ms: ");
        assert("%   500-999ms: "@ =~= "%  "@ + " 500-999ms: "@);
        assert("%      2000+ms: "@ =~= "%"@ + "      2000+ms: "@);
        assert(frames(
            |figure: Seq<char>| shares_words(false, loss, bad_loss, rtt4.update(3, figure), score),
            "Loss: "@ + loss + "%   bad loss: "@ + bad_loss + "%\nRTT4 brackets: 0-49ms: "@
                + rtt4[0] + "%   180-399ms: "@ + rtt4[2] + "%  1000-1999ms: "@ + rtt4[4]
                + "%\n             50-179ms: "@ + rtt4[1] + "%  "@,
            " 500-999ms: "@,
            "%"@,
            "      2000+ms: "@ + rtt4[5] + "%\n <<<  Overall score:  "@ + score
                + " / 10.0  >>>\n"@,
        ));
    }
    assert(shows(
        |figure: Seq<char>| shares_words(true, loss, bad_loss, rtt4.update(3, figure), score),
        "\"400_999\":"@,
        " ,"@,
    )) by {
        reveal_strlit(" ,\"400_999\":");
        reveal_strlit(" ,");
        reveal_strlit("\"400_999\":");
        reveal_strlit(" ,\"1000_1999\":");
        reveal_strlit("\"1000_1999\":");
        assert(" ,\"400_999\":"@ =~= " ,"@ + "\"400_999\":"@);
        assert(" ,\"1000_1999\":"@ =~= " ,"@ + "\"1000_1999\":"@);
        assert(frames(
            |figure: Seq<char>| shares_words(true, loss, bad_loss, rtt4.update(3, figure), score),
            ",\"loss\":"@ + loss + " ,\"bad_loss\":"@ + bad_loss + "\n,\"rtt4\":{\"0_49\":"@
                + rtt4[0] + " ,\"50_179\":"@ + rtt4[1] + " ,\"180_399\":"@ + rtt4[2] + " ,"@,
            "\"400_999\":"@,
            " ,"@,
            "\"1000_1999\":"@ + rtt4[4] + " ,\"2000+\":"@ + rtt4[5] + "}\n,\"score\":"@
                + score + "\n"@,
        ));
    }
}

/// The share of the fifth bracket stands behind its own label, in words as in JSON,
/// whatever the figures are.
pub proof fn law_fifth_bracket_stands_behind_its_label(
    loss: Seq<char>,
    bad_loss: Seq<char>,
    rtt4: Seq<Seq<char>>,
    score: Seq<char>,
)
    requires
        rtt4.len() == 6,
    ensures
        shows(
            |figure: Seq<char>| shares_words(false, loss, bad_loss, rtt4.update(4, figure), score),
            " 1000-1999ms: "@,
            "%"@,
        ),
        shows(
            |figure: Seq<char>| shares_words(true, loss, bad_loss, rtt4.update(4, figure), score),
            "\"1000_1999\":"@,
            " ,"@,
        ),
{
    assert(shows(
        |figure: Seq<char>| shares_words(false, loss, bad_loss, rtt4.update(4, figure), score),
        " 1000-1999ms: "@,
        "%"@,
    )) by {
        reveal_strlit("%  1000-1999ms: ");
        reveal_strlit("% ");
        reveal_strlit(" 1000-1999ms: ");
        reveal_strlit("%\n             50-179ms: ");
        reveal_strlit("%");
        reveal_strlit("\n             50-179ms: ");
        assert("%  1000-1999ms: "@ =~= "% "@ + " 1000-1999ms: "@);
        assert("%\n             50-179ms: "@ =~= "%"@ + "\n             50-179ms: "@);
        assert(frames(
            |figure: Seq<char>| shares_words(false, loss, bad_loss, rtt4.update(4, figure), score),
            "Loss: "@ + loss + "%   bad loss: "@ + bad_loss + "%\nRTT4 brackets: 0-49ms: "@
                + rtt4[0] + "%   180-399ms: "@ + rtt4[2] + "% "@,
            " 1000-1999ms: "@,
            "%"@,
            "\n             50-179ms: "@ + rtt4[1] + "%   500-999ms: "@ + rtt4[3]
                + "%      2000+ms: "@ + rtt4[5] + "%\n <<<  Overall score:  "@ + score
                + " / 10.0  >>>\n"@,
        ));
    }
    assert(shows(
        |figure: Seq<char>| shares_words(true, loss, bad_loss, rtt4.update(4, figure), score),
        "\"1000_1999\":"@,
        " ,"@,
    )) by {
        reveal_strlit(" ,\"1000_1999\":");
        reveal_strlit(" ,");
        reveal_strlit("\"1000_1999\":");
        reveal_strlit(" ,\"2000+\":");
        reveal_strlit("\"2000+\":");
        assert(" ,\"1000_1999\":"@ =~= " ,"@ + "\"1000_1999\":"@);
        assert(" ,\"2000+\":"@ =~= " ,"@ + "\"2000+\":"@);
        assert(frames(
            |figure: Seq<char>| shares_words(true, loss, bad_loss, rtt4.update(4, figure), score),
            ",\"loss\":"@ + loss + " ,\"bad_loss\":"@ + bad_loss + "\n,\"rtt4\":{\"0_49\":"@
                + rtt4[0] + " ,\"50_179\":"@ + rtt4[1] + " ,\"180_399\":"@ + rtt4[2]
                + " ,\"400_999\":"@ + rtt4[3] + " ,"@,
            "\"1000_1999\":"@,
            " ,"@,
            "\"2000+\":"@ + rtt4[5] + "}\n,\"score\":"@ + score + "\n"@,
        ));
    }
}

/// The share of the last bracket stands behind its own label, in words as in JSON,
/// whatever the figures are.
pub proof fn law_last_bracket_stands_behind_its_label(
    loss: Seq<char>,
    bad_loss: Seq<char>,
    rtt4: Seq<Seq<char>>,
    score: Seq<char>,
)
    requires
        rtt4.len() == 6,
    ensures
        shows(
            |figure: Seq<char>| shares_words(false, loss, bad_loss, rtt4.update(5, figure), score),
            " 2000+ms: "@,
            "%"@,
        ),
        shows(
            |figure: Seq<char>| shares_words(true, loss, bad_loss, rtt4.update(5, figure), score),
            "\"2000+\":"@,
            "}"@,
        ),
{
    assert(shows(
        |figure: Seq<char>| shares_words(false, loss, bad_loss, rtt4.update(5, figure), score),
        " 2000+ms: "@,
        "%"@,
    )) by {
        reveal_strlit("%      2000+ms: ");
        reveal_strlit("%     ");
        reveal_strlit(" 2000+ms: ");
        reveal_strlit("%\n <<<  Overall score:  ");
        reveal_strlit("%");
        reveal_strlit("\n <<<  Overall score:  ");
        assert("%      2000+ms: "@ =~= "%     "@ + " 2000+ms: "@);
        assert("%\n <<<  Overall score:  "@ =~= "%"@ + "\n <<<  Overall score:  "@);
        assert(frames(
            |figure: Seq<char>| shares_words(false, loss, bad_loss, rtt4.update(5, figure), score),
            "Loss: "@ + loss + "%   bad loss: "@ + bad_loss + "%\nRTT4 brackets: 0-49ms: "@
                + rtt4[0] + "%   180-399ms: "@ + rtt4[2] + "%  1000-1999ms: "@ + rtt4[4]
                + "%\n             50-179ms: "@ + rtt4[1] + "%   500-999ms: "@ + rtt4[3]
                + "%     "@,
            " 2000+ms: "@,
            "%"@,
            "\n <<<  Overall score:  "@ + score + " / 10.0  >>>\n"@,
        ));
    }
    assert(shows(
        |figure: Seq<char>| shares_words(true, loss, bad_loss, rtt4.update(5, figure), score),
        "\"2000+\":"@,
        "}"@,
    )) by {
        reveal_strlit(" ,\"2000+\":");
        reveal_strlit(" ,");
        reveal_strlit("\"2000+\":");
        reveal_strlit("}\n,\"score\":");
        reveal_strlit("}");
        reveal_strlit("\n,\"score\":");
        assert(" ,\"2000+\":"@ =~= " ,"@ + "\"2000+\":"@);
        assert("}\n,\"score\":"@ =~= "}"@ + "\n,\"score\":"@);
        assert(frames(
            |figure: Seq<char>| shares_words(true, loss, bad_loss, rtt4.update(5, figure), score),
            ",\"loss\":"@ + loss + " ,\"bad_loss\":"@ + bad_loss + "\n,\"rtt4\":{\"0_49\":"@
                + rtt4[0] + " ,\"50_179\":"@ + rtt4[1] + " ,\"180_399\":"@ + rtt4[2]
                + " ,\"400_999\":"@ + rtt4[3] + " ,\"1000_1999\":"@ + rtt4[4] + " ,"@,
            "\"2000+\":"@,
            "}"@,
            "\n,\"score\":"@ + score + "\n"@,
        ));
    }
}

/// The score stands behind its own label, in words as in JSON, whatever the figures
/// are.
pub proof fn law_score_stands_behind_its_label(
    loss: Seq<char>,
    bad_loss: Seq<char>,
    rtt4: Seq<Seq<char>>,
)
    requires
        rtt4.len() == 6,
    ensures
        shows(
            |figure: Seq<char>| shares_words(false, loss, bad_loss, rtt4, figure),
            "Overall score:  "@,
            " / 10.0"@,
        ),
        shows(
            |figure: Seq<char>| shares_words(true, loss, bad_loss, rtt4, figure),
            "\"score\":"@,
            "\n"@,
        ),
{
    assert(shows(
        |figure: Seq<char>| shares_words(false, loss, bad_loss, rtt4, figure),
        "Overall score:  "@,
        " / 10.0"@,
    )) by {
        reveal_strlit("%\n <<<  Overall score:  ");
        reveal_strlit("%\n <<<  ");
        reveal_strlit("Overall score:  ");
        reveal_strlit(" / 10.0  >>>\n");
        reveal_strlit(" / 10.0");
        reveal_strlit("  >>>\n");
        assert("%\n <<<  Overall score:  "@ =~= "%\n <<<  "@ + "Overall score:  "@);
        assert(" / 10.0  >>>\n"@ =~= " / 10.0"@ + "  >>>\n"@);
        assert(frames(
            |figure: Seq<char>| shares_words(false, loss, bad_loss, rtt4, figure),
            "Loss: "@ + loss + "%   bad loss: "@ + bad_loss + "%\nRTT4 brackets: 0-49ms: "@
                + rtt4[0] + "%   180-399ms: "@ + rtt4[2] + "%  1000-1999ms: "@ + rtt4[4]
                + "%\n             50-179ms: "@ + rtt4[1] + "%   500-999ms: "@ + rtt4[3]
                + "%      2000+ms: "@ + rtt4[5] + "%\n <<<  "@,
            "Overall score:  "@,
            " / 10.0"@,
            "  >>>\n"@,
        ));
    }
    assert(shows(
        |figure: Seq<char>| shares_words(true, loss, bad_loss, rtt4, figure),
        "\"score\":"@,
        "\n"@,
    )) by {
        reveal_strlit("}\n,\"score\":");
        reveal_strlit("}\n,");
        reveal_strlit("\"score\":");
        assert("}\n,\"score\":"@ =~= "}\n,"@ + "\"score\":"@);
        assert(frames(
            |figure: Seq<char>| shares_words(true, loss, bad_loss, rtt4, figure),
            ",\"loss\":"@ + loss + " ,\"bad_loss\":"@ + bad_loss + "\n,\"rtt4\":{\"0_49\":"@
                + rtt4[0] + " ,\"50_179\":"@ + rtt4[1] + " ,\"180_399\":"@ + rtt4[2]
                + " ,\"400_999\":"@ + rtt4[3] + " ,\"1000_1999\":"@ + rtt4[4] + " ,\"2000+\":"@
                + rtt4[5] + "}\n,"@,
            "\"score\":"@,
            "\n"@,
            Seq::<char>::empty(),
        ));
    }
}

/// The load of a test stands behind its own words.
pub proof fn law_load_stands_behind_its_words(mbps: Seq<char>, megabytes: Seq<char>)
    ensures
        shows(|figure: Seq<char>| load_words(figure, megabytes), "approx "@, " Mbit/s"@),
        shows(|figure: Seq<char>| load_words(mbps, figure), " consume "@, " megabytes"@),
        shows(|figure: Seq<char>| calc_words(figure, megabytes), "\"kpbs\":"@, ","@),
        shows(|figure: Seq<char>| calc_words(mbps, figure), "\"bytes\":"@, "}"@),
{
    reveal_strlit("The test would do approx ");
    reveal_strlit("The test would do ");
    reveal_strlit("approx ");
    reveal_strlit(" Mbit/s and consume ");
    reveal_strlit(" Mbit/s");
    reveal_strlit(" and consume ");
    reveal_strlit(" Mbit/s and");
    reveal_strlit(" consume ");
    reveal_strlit(" megabytes of traffic");
    reveal_strlit(" megabytes");
    reveal_strlit(" of traffic");
    reveal_strlit("{\"status\":\"calc\", \"kpbs\":");
    reveal_strlit("{\"status\":\"calc\", ");
    reveal_strlit("\"kpbs\":");
    reveal_strlit(", \"bytes\":");
    reveal_strlit(", ");
    reveal_strlit(",");
    reveal_strlit("\"bytes\":");
    reveal_strlit(" \"bytes\":");
    reveal_strlit("}");
    assert(frames(
        |figure: Seq<char>| load_words(figure, megabytes),
        "The test would do "@,
        "approx "@,
        " Mbit/s"@,
        " and consume "@ + megabytes + " megabytes of traffic"@,
    ));
    assert(frames(
        |figure: Seq<char>| load_words(mbps, figure),
        "The test would do approx "@ + mbps + " Mbit/s and"@,
        " consume "@,
        " megabytes"@,
        " of traffic"@,
    ));
    assert(frames(
        |figure: Seq<char>| calc_words(figure, megabytes),
        "{\"status\":\"calc\", "@,
        "\"kpbs\":"@,
        ","@,
        " \"bytes\":"@ + megabytes + "}"@,
    ));
    assert(frames(
        |figure: Seq<char>| calc_words(mbps, figure),
        "{\"status\":\"calc\", \"kpbs\":"@ + mbps + ", "@,
        "\"bytes\":"@,
        "}"@,
        Seq::<char>::empty(),
    ));
}

/// The number that a text of decimal digits stands for.
pub open spec fn read_decimal(text: Seq<char>) -> int
    decreases text.len(),
{
    if text.len() == 0 {
        0
    } else {
        read_decimal(text.drop_last()) * 10 + (text.last() as int - 48)
    }
}

/// A number is written in digits between 0 and 9, without a leading zero, and
/// reads back as itself.
pub proof fn law_decimal_reads_back(n: nat)
    ensures
        read_decimal(decimal(n)) == n,
        decimal(n).len() >= 1,
        forall|i: int| 0 <= i < decimal(n).len() ==> '0' <= #[trigger] decimal(n)[i] <= '9',
        n > 0 ==> decimal(n)[0] != '0',
    decreases n,
{
    reveal_with_fuel(read_decimal, 2);
    if n < 10 {
        assert(decimal(n).drop_last() =~= Seq::<char>::empty());
    } else {
        law_decimal_reads_back(n / 10);
        assert(decimal(n).drop_last() =~= decimal(n / 10));
    }
}

/// `words` is made of `before`, `label`, the decimal digits of the number, `mark`
/// and `after`, whatever the number.
pub open spec fn frames_number(
    words: spec_fn(nat) -> Seq<char>,
    before: Seq<char>,
    label: Seq<char>,
    mark: Seq<char>,
    after: Seq<char>,
) -> bool {
    forall|n: nat| #[trigger] words(n) =~= before + label + decimal(n) + mark + after
}

/// `words` shows the number between `label` and `mark`, whatever the number, and
/// the rest of the words does not depend on it.
pub open spec fn shows_number(
    words: spec_fn(nat) -> Seq<char>,
    label: Seq<char>,
    mark: Seq<char>,
) -> bool {
    exists|before: Seq<char>, after: Seq<char>| frames_number(words, before, label, mark, after)
}

/// The report shows how many packets came back behind a label of its own, in words
/// as in JSON, whatever the other figures are.
pub proof fn law_received_stands_behind_its_label(window: nat, total: nat, shares: Seq<char>)
    ensures
        shows_number(
            |n: nat| report_words(false, n, window, total, shares),
            "Received "@,
            " packets"@,
        ),
        shows_number(
            |n: nat| report_words(true, n, window, total, shares),
            "\"received_packets\":"@,
            " ,"@,
        ),
{
    assert(shows_number(
        |n: nat| report_words(false, n, window, total, shares),
        "Received "@,
        " packets"@,
    )) by {
        reveal_strlit(" packets from ");
        reveal_strlit(" packets");
        reveal_strlit(" from ");
        assert(" packets from "@ =~= " packets"@ + " from "@);
        assert(frames_number(
            |n: nat| report_words(false, n, window, total, shares),
            Seq::<char>::empty(),
            "Received "@,
            " packets"@,
            " from "@ + decimal(window) + " window of total "@ + decimal(total) + " || "@
                + shares,
        ));
    }
    assert(shows_number(
        |n: nat| report_words(true, n, window, total, shares),
        "\"received_packets\":"@,
        " ,"@,
    )) by {
        reveal_strlit(",\"received_packets\":");
        reveal_strlit(",");
        reveal_strlit("\"received_packets\":");
        reveal_strlit(" ,\"min_max_window\":");
        reveal_strlit(" ,");
        reveal_strlit("\"min_max_window\":");
        assert(",\"received_packets\":"@ =~= ","@ + "\"received_packets\":"@);
        assert(" ,\"min_max_window\":"@ =~= " ,"@ + "\"min_max_window\":"@);
        assert(frames_number(
            |n: nat| report_words(true, n, window, total, shares),
            "{\"status\":\"ok\"\n"@ + ","@,
            "\"received_packets\":"@,
            " ,"@,
            "\"min_max_window\":"@ + decimal(window) + " ,\"sent_packets\":"@ + decimal(total)
                + "\n"@ + shares + "}\n"@,
        ));
    }
}

/// The report shows how wide the window is behind a label of its own, in words as
/// in JSON, whatever the other figures are.
pub proof fn law_window_stands_behind_its_label(received: nat, total: nat, shares: Seq<char>)
    ensures
        shows_number(
            |n: nat| report_words(false, received, n, total, shares),
            " from "@,
            " window"@,
        ),
        shows_number(
            |n: nat| report_words(true, received, n, total, shares),
            "\"min_max_window\":"@,
            " ,"@,
        ),
{
    assert(shows_number(
        |n: nat| report_words(false, received, n, total, shares),
        " from "@,
        " window"@,
    )) by {
        reveal_strlit(" packets from ");
        reveal_strlit(" packets");
        reveal_strlit(" from ");
        reveal_strlit(" window of total ");
        reveal_strlit(" window");
        reveal_strlit(" of total ");
        assert(" packets from "@ =~= " packets"@ + " from "@);
        assert(" window of total "@ =~= " window"@ + " of total "@);
        assert(frames_number(
            |n: nat| report_words(false, received, n, total, shares),
            "Received "@ + decimal(received) + " packets"@,
            " from "@,
            " window"@,
            " of total "@ + decimal(total) + " || "@ + shares,
        ));
    }
    assert(shows_number(
        |n: nat| report_words(true, received, n, total, shares),
        "\"min_max_window\":"@,
        " ,"@,
    )) by {
        reveal_strlit(" ,\"min_max_window\":");
        reveal_strlit(" ,");
        reveal_strlit("\"min_max_window\":");
        reveal_strlit(" ,\"sent_packets\":");
        reveal_strlit("\"sent_packets\":");
        assert(" ,\"min_max_window\":"@ =~= " ,"@ + "\"min_max_window\":"@);
        assert(" ,\"sent_packets\":"@ =~= " ,"@ + "\"sent_packets\":"@);
        assert(frames_number(
            |n: nat| report_words(true, received, n, total, shares),
            "{\"status\":\"ok\"\n"@ + ",\"received_packets\":"@ + decimal(received) + " ,"@,
            "\"min_max_window\":"@,
            " ,"@,
            "\"sent_packets\":"@ + decimal(total) + "\n"@ + shares + "}\n"@,
        ));
    }
}

/// The report shows how many packets were sent behind a label of its own, in words
/// as in JSON, whatever the other figures are.
pub proof fn law_total_stands_behind_its_label(received: nat, window: nat, shares: Seq<char>)
    ensures
        shows_number(
            |n: nat| report_words(false, received, window, n, shares),
            " total "@,
            " ||"@,
        ),
        shows_number(
            |n: nat| report_words(true, received, window, n, shares),
            "\"sent_packets\":"@,
            "\n"@,
        ),
{
    assert(shows_number(
        |n: nat| report_words(false, received, window, n, shares),
        " total "@,
        " ||"@,
    )) by {
        reveal_strlit(" window of total ");
        reveal_strlit(" window of");
        reveal_strlit(" total ");
        reveal_strlit(" || ");
        reveal_strlit(" ||");
        reveal_strlit(" ");
        assert(" window of total "@ =~= " window of"@ + " total "@);
        assert(" || "@ =~= " ||"@ + " "@);
        assert(frames_number(
            |n: nat| report_words(false, received, window, n, shares),
            "Received "@ + decimal(received) + " packets from "@ + decimal(window)
                + " window of"@,
            " total "@,
            " ||"@,
            " "@ + shares,
        ));
    }
    assert(shows_number(
        |n: nat| report_words(true, received, window, n, shares),
        "\"sent_packets\":"@,
        "\n"@,
    )) by {
        reveal_strlit(" ,\"sent_packets\":");
        reveal_strlit(" ,");
        reveal_strlit("\"sent_packets\":");
        assert(" ,\"sent_packets\":"@ =~= " ,"@ + "\"sent_packets\":"@);
        assert(frames_number(
            |n: nat| report_words(true, received, window, n, shares),
            "{\"status\":\"ok\"\n"@ + ",\"received_packets\":"@ + decimal(received)
                + " ,\"min_max_window\":"@ + decimal(window) + " ,"@,
            "\"sent_packets\":"@,
            "\n"@,
            shares + "}\n"@,
        ));
    }
}

/// The counts come first and the shares follow them, in words as in JSON, where
/// they stand in one object that says that the test went well.
pub proof fn law_report_layout(received: nat, window: nat, total: nat, shares: Seq<char>)
    ensures
        report_words(false, received, window, total, shares) == "Received "@ + decimal(received)
            + " packets from "@ + decimal(window) + " window of total "@ + decimal(total)
            + " || "@ + shares,
        report_words(true, received, window, total, shares)
            == "{\"status\":\"ok\"\n,\"received_packets\":"@ + decimal(received)
            + " ,\"min_max_window\":"@ + decimal(window) + " ,\"sent_packets\":"@ + decimal(total)
            + "\n"@ + shares + "}\n"@,
{
    reveal_strlit("{\"status\":\"ok\"\n,\"received_packets\":");
    reveal_strlit("{\"status\":\"ok\"\n");
    reveal_strlit(",\"received_packets\":");
    assert("{\"status\":\"ok\"\n,\"received_packets\":"@ =~= "{\"status\":\"ok\"\n"@
        + ",\"received_packets\":"@);
}

} // verus!
