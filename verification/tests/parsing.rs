use active_recall::commands::{latency_fields, parser_1, parser_2, Command};
use active_recall::int_parse::{parse_i32, parse_u32, IntParseError};
use active_recall::text::{lines_of, split_char, split_once_char, starts_with_str, str_eq, strip_prefix_str};
use std::num::IntErrorKind;

fn kind_of(e: &std::num::ParseIntError) -> IntParseError {
    match e.kind() {
        IntErrorKind::Empty => IntParseError::Empty,
        IntErrorKind::InvalidDigit => IntParseError::InvalidDigit,
        IntErrorKind::PosOverflow => IntParseError::PosOverflow,
        IntErrorKind::NegOverflow => IntParseError::NegOverflow,
        _ => panic!("unexpected kind"),
    }
}

const SAMPLES: &[&str] = &[
    "", "0", "7", "+7", "-7", "+", "-", "--1", "+-1", "00012", "4294967295", "4294967296",
    "2147483647", "2147483648", "-2147483648", "-2147483649", "99999999999x", "12a", "a12",
    " 1", "1 ", "１２", "-0", "+0", "500", "950", "-300", "99d547", "1234567",
];

#[test]
fn u32_parsing_agrees_with_std() {
    for s in SAMPLES {
        let ours = parse_u32(s);
        let theirs = s.parse::<u32>().map_err(|e| kind_of(&e));
        assert_eq!(ours, theirs, "input {:?}", s);
    }
}

#[test]
fn i32_parsing_agrees_with_std() {
    for s in SAMPLES {
        let ours = parse_i32(s);
        let theirs = s.parse::<i32>().map_err(|e| kind_of(&e));
        assert_eq!(ours, theirs, "input {:?}", s);
    }
}

#[test]
fn parse_error_kinds() {
    assert_eq!(parse_u32(""), Err(IntParseError::Empty));
    assert_eq!(parse_u32("-1"), Err(IntParseError::InvalidDigit));
    assert_eq!(parse_u32("4294967296"), Err(IntParseError::PosOverflow));
    assert_eq!(parse_i32("-2147483649"), Err(IntParseError::NegOverflow));
    assert_eq!(parse_i32("-2147483648"), Ok(i32::MIN));
    assert_eq!(parse_u32("+42"), Ok(42));
}

#[test]
fn text_helpers_match_std() {
    let s = "a:b::c:";
    let ours: Vec<&str> = split_char(s, ':');
    let theirs: Vec<&str> = s.split(':').collect();
    assert_eq!(ours, theirs);
    assert_eq!(split_char("", ':'), vec![""]);
    assert_eq!(split_once_char("alex,500", ','), Some(("alex", "500")));
    assert_eq!(split_once_char("nocomma", ','), None);
    assert_eq!(split_once_char("a,b,c", ','), "a,b,c".split_once(','));
    for log in ["", "\n", "a\nb", "a\r\nb\n", "a\n\nb\r", "x\r\n\r\ny"] {
        let ours: Vec<&str> = lines_of(log);
        let theirs: Vec<&str> = log.lines().collect();
        assert_eq!(ours, theirs, "input {:?}", log);
    }
    assert!(starts_with_str("INFO;x", "INFO"));
    assert!(!starts_with_str("INF", "INFO"));
    assert_eq!(strip_prefix_str("latency_ms=125", "latency_ms="), Some("125"));
    assert_eq!(strip_prefix_str("status=200", "latency_ms="), None);
    assert!(str_eq("héllo", "héllo"));
    assert!(!str_eq("hello", "hellO"));
}

#[test]
fn scores_skip_invalid_records() {
    let inputs = vec![
        "alex,500",
        "jordan,950",
        "invalid_line",
        ",700",
        "casey,-300",
        "morgan,1200",
    ];
    let scores = parser_1(inputs);
    assert_eq!(scores.len(), 3);
    assert_eq!(scores.get("alex"), Some(&500));
    assert_eq!(scores.get("jordan"), Some(&950));
    assert_eq!(scores.get("morgan"), Some(&1200));
    assert_eq!(scores.get("casey"), None);
    assert_eq!(scores.get(""), None);
}

#[test]
fn later_score_replaces_earlier() {
    let scores = parser_1(vec!["a,1", "b,2", "a,3"]);
    assert_eq!(scores.len(), 2);
    assert_eq!(scores.get("a"), Some(&3));
}

#[test]
fn commands_skip_malformed_lines() {
    let inputs = vec![
        "set:id:100",
        "add:count:5",
        "del:user_session",
        "set:mode:debug",
        "UNKNOWN:COMMAND",
        "add:retries:",
        "del:",
        "set:volume:99",
        "add:points:25",
        "del:user_session:extra",
    ];
    let cmds = parser_2(inputs);
    assert_eq!(
        cmds,
        vec![
            Command::Assign("id".to_string(), 100),
            Command::Add("count".to_string(), 5),
            Command::Del("user_session".to_string()),
            Command::Assign("volume".to_string(), 99),
            Command::Add("points".to_string(), 25),
        ]
    );
}

#[test]
fn commands_need_a_key() {
    assert!(parser_2(vec!["set::1", "add::2", "del", ""]).is_empty());
    assert_eq!(parser_2(vec!["add:n:-4"]), vec![Command::Add("n".to_string(), -4)]);
}

#[test]
fn latency_of_successful_gets() {
    let log_data: &str = "INFO;request_id=a3f-9j1;method=GET;path=/api/v1/users;status=200;latency_ms=125\n\
                      INFO;request_id=457-d1;method=GET;path=/api/v1/users;status=200;latency_ms=574\n\
                      ERROR;request_id=b4g-0k2;method=POST;path=/api/v1/login;error=AuthFailure\n\
                      WARN;service=auth-service;message=High CPU usage\n\
                      BRONCO;411\n\
                      INFO;request_id=a3f-9j1;method=BOOP;path=/api/v1/users;status=450;latency_ms=125";
    assert_eq!(latency_fields(log_data), vec!["125", "574"]);
}

#[test]
fn latency_takes_last_field_and_needs_both_markers() {
    let log = "INFO;latency_ms=1;method=GET;latency_ms=2;status=200\nINFO;method=GET;latency_ms=3\nINFO;status=200;method=GET\n";
    assert_eq!(latency_fields(log), vec!["2"]);
}
