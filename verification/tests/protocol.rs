use concurrent_pqueue::protocol::{HELP, INVALID_COMMAND, INVALID_VALUE};
use concurrent_pqueue::{Command, PQueueStats, Response};

fn update(item_id: &str, value: i64) -> Command {
    Command::Update { item_id: item_id.to_string(), value }
}

fn same(a: &Command, b: &Command) -> bool {
    format!("{:?}", a) == format!("{:?}", b)
}

fn error(msg: &str) -> Command {
    Command::Error { msg: msg.to_string() }
}

#[test]
fn parses_each_verb() {
    assert!(same(&Command::from("UPDATE a 10"), &update("a", 10)));
    assert!(same(&Command::from("NEXT"), &Command::Next));
    assert!(same(&Command::from("PEEK"), &Command::Peek));
    assert!(same(&Command::from("SCORE a"), &Command::Score { item_id: "a".to_string() }));
    assert!(same(&Command::from("INFO"), &Command::Info));
    assert!(same(&Command::from("HELP"), &Command::Help));
}

#[test]
fn verbs_are_read_in_any_case() {
    assert!(same(&Command::from("update a 10"), &update("a", 10)));
    assert!(same(&Command::from("UpDaTe a 10"), &update("a", 10)));
    assert!(same(&Command::from("next"), &Command::Next));
    assert!(same(&Command::from("Peek"), &Command::Peek));
    assert!(same(&Command::from("score a"), &Command::Score { item_id: "a".to_string() }));
    assert!(same(&Command::from("iNfO"), &Command::Info));
    assert!(same(&Command::from("help"), &Command::Help));
}

#[test]
fn identifiers_keep_their_case() {
    assert!(same(&Command::from("score AbC"), &Command::Score { item_id: "AbC".to_string() }));
    assert!(same(&Command::from("UPDATE Next 1"), &update("Next", 1)));
    assert!(!same(&Command::from("SCORE abc"), &Command::Score { item_id: "ABC".to_string() }));
}

#[test]
fn words_are_cut_at_runs_of_whitespace() {
    assert!(same(&Command::from("  UPDATE \t a \r  10  "), &update("a", 10)));
    assert!(same(&Command::from("\tPEEK\n"), &Command::Peek));
    assert!(same(&Command::from("SCORE\x0Cb"), &Command::Score { item_id: "b".to_string() }));
}

#[test]
fn identifiers_may_hold_any_other_character() {
    assert!(same(&Command::from("UPDATE h\u{e9}llo\u{1F600} 3"), &update("h\u{e9}llo\u{1F600}", 3)));
    assert!(same(&Command::from("SCORE a\u{a0}b"), &Command::Score { item_id: "a\u{a0}b".to_string() }));
}

#[test]
fn values_are_64_bit_integers() {
    assert!(same(&Command::from("UPDATE a -10"), &update("a", -10)));
    assert!(same(&Command::from("UPDATE a +10"), &update("a", 10)));
    assert!(same(&Command::from("UPDATE a 007"), &update("a", 7)));
    assert!(same(&Command::from("UPDATE a -0"), &update("a", 0)));
    assert!(same(&Command::from("UPDATE a 9223372036854775807"), &update("a", i64::MAX)));
    assert!(same(&Command::from("UPDATE a -9223372036854775808"), &update("a", i64::MIN)));
}

#[test]
fn a_value_that_is_no_integer_is_an_error() {
    for line in [
        "UPDATE a ten",
        "UPDATE a 1.5",
        "UPDATE a 1e3",
        "UPDATE a 0x10",
        "UPDATE a -",
        "UPDATE a +",
        "UPDATE a --1",
        "UPDATE a 1_000",
        "UPDATE a 12a",
        "UPDATE a \u{663}",
        "UPDATE a 9223372036854775808",
        "UPDATE a -9223372036854775809",
        "UPDATE a 99999999999999999999999999999999999999999999",
    ] {
        assert!(same(&Command::from(line), &error(INVALID_VALUE)), "{}", line);
    }
    assert_eq!(INVALID_VALUE, "Invalid value for UPDATE");
}

#[test]
fn the_integer_parser_agrees_with_the_standard_one() {
    for text in ["0", "-1", "+1", "42", "-9223372036854775808", "9223372036854775807", "10000000000000000000", "", "-", "1-", "٣"] {
        let line = format!("UPDATE a {}", text);
        match text.parse::<i64>() {
            Ok(value) => assert!(same(&Command::from(line.as_str()), &update("a", value)), "{}", text),
            Err(_) => assert!(!matches!(Command::from(line.as_str()), Command::Update { .. }), "{}", text),
        }
    }
}

#[test]
fn anything_else_is_an_error() {
    for line in [
        "",
        "   ",
        "GARBAGE",
        "NEXT now",
        "PEEK a b",
        "SCORE",
        "SCORE a b",
        "UPDATE",
        "UPDATE a",
        "UPDATE a 1 2",
        "INFO please",
        "HELP me",
        "NEXTT",
        "NEX",
        "UPDATE\u{a0}a 1",
    ] {
        assert!(same(&Command::from(line), &error(INVALID_COMMAND)), "{:?}", line);
    }
    assert_eq!(INVALID_COMMAND, "Invalid command or arguments");
}

#[test]
fn parse_and_from_agree() {
    for line in ["UPDATE a 1", "peek", "SCORE x", "nonsense", "UPDATE a b"] {
        assert!(same(&Command::from(line), &Command::parse(line)));
    }
}

#[test]
fn answers_are_written_as_lines() {
    assert_eq!(Response::Done.to_string(), "+OK\r\n");
    assert_eq!(Response::Score(30).to_string(), "+30\r\n");
    assert_eq!(Response::Score(-1).to_string(), "+-1\r\n");
    assert_eq!(Response::Score(0).to_string(), "+0\r\n");
    assert_eq!(Response::Item("b".to_string()).to_string(), "+b\r\n");
    assert_eq!(Response::Item("-1".to_string()).to_string(), "+-1\r\n");
    assert_eq!(Response::Error("Invalid command or arguments".to_string()).to_string(), "-Invalid command or arguments\r\n");
}

#[test]
fn scores_are_written_in_base_ten() {
    for score in [0, 1, -1, 9, 10, 11, 99, 100, 101, -10, 1234567890, i64::MAX, i64::MIN, i64::MIN + 1] {
        assert_eq!(Response::Score(score).to_string(), format!("+{}\r\n", score));
    }
    assert_eq!(Response::Score(i64::MIN).to_string(), "+-9223372036854775808\r\n");
    assert_eq!(Response::Score(i64::MAX).to_string(), "+9223372036854775807\r\n");
}

#[test]
fn statistics_are_written_as_six_lines() {
    let stats = PQueueStats { uptime: 75, version: "0.1.0".to_string(), updates: 2, items: 1, pools: 1 };
    assert_eq!(
        Response::Stats(stats).to_string(),
        "+INFO\r\n+uptime:75\r\n+version:0.1.0\r\n+updates:2\r\n+items:1\r\n+pools:1\r\n"
    );
}

#[test]
fn help_is_the_usage_block() {
    let text = Response::Help.to_string();
    assert_eq!(text, HELP);
    assert!(text.starts_with("USAGE (note: commands are case insensitive, identifiers are case sensitive): \r\n+UPDATE <identifier> <score> ["));
    assert!(text.ends_with("\r\n +HELP                        [Get this help]\r\n"));
    assert_eq!(text.matches("\r\n").count(), 6);
    assert_eq!(text.len(), 554);
}
