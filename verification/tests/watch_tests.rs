use upbit_notice::json::JsonValue;
use upbit_notice::number::{decimal_string, parse_i64, parse_trimmed_i64, parse_trimmed_u64, parse_u64};
use upbit_notice::watch::{
    batch_max, chat_id_setting, fresh_notices, notice_message, notices_from_json,
    notices_from_response, parse_seen,
    poll_secs_setting, Notice, Step, Watcher,
};

fn n(id: i64, title: &str) -> Notice {
    Notice { id, title: title.to_string() }
}

fn ids(v: &[Notice]) -> Vec<i64> {
    v.iter().map(|x| x.id).collect()
}

fn sent(step: Step) -> Vec<Notice> {
    match step {
        Step::Send(v) => v,
        other => panic!("expected notices to send, got {:?}", other),
    }
}

fn obj(members: Vec<(&str, JsonValue)>) -> JsonValue {
    JsonValue::Object(members.into_iter().map(|(k, v)| (k.to_string(), v)).collect())
}

#[test]
fn notices_from_list_response() {
    let item = |id: JsonValue, t: &str| obj(vec![("id", id), ("title", JsonValue::Str(t.to_string()))]);
    let v = obj(vec![(
        "data",
        obj(vec![(
            "notices",
            JsonValue::Array(vec![
                item(JsonValue::Number(Some(5)), "A"),
                item(JsonValue::Str("x".to_string()), "B"),
                item(JsonValue::Number(Some(7)), "C"),
            ]),
        )]),
    )]);
    assert_eq!(notices_from_json(&v), Some(vec![n(5, "A"), n(7, "C")]));
    assert_eq!(notices_from_json(&JsonValue::Str("x".to_string())), None);
}

#[test]
fn empty_poll_is_skipped() {
    let mut w = Watcher::new(None);
    assert!(matches!(w.on_batch(&vec![]), Step::Skip));
    assert_eq!(w.seen_max(), None);
}

#[test]
fn first_poll_sets_baseline_and_sends_nothing() {
    let mut w = Watcher::new(None);
    let batch = vec![n(3, "a"), n(9, "b"), n(5, "c")];
    assert!(matches!(w.on_batch(&batch), Step::Baseline(9)));
    assert_eq!(w.seen_max(), Some(9));
    assert_eq!(sent(w.on_batch(&batch)), vec![]);
}

#[test]
fn new_notices_go_out_oldest_first() {
    let mut w = Watcher::new(Some(4));
    let batch = vec![n(3, "a"), n(9, "b"), n(5, "c"), n(7, "d")];
    let list = sent(w.on_batch(&batch));
    assert_eq!(ids(&list), vec![5, 7, 9]);
    assert_eq!(w.seen_max(), Some(4));
}

#[test]
fn equal_ids_keep_their_order() {
    let list = fresh_notices(&vec![n(6, "x"), n(2, "z"), n(6, "y")], 0);
    assert_eq!(list, vec![n(2, "z"), n(6, "x"), n(6, "y")]);
}

#[test]
fn failed_delivery_is_retried_next_poll() {
    let mut w = Watcher::new(Some(4));
    let batch = vec![n(9, "c"), n(5, "a"), n(7, "b")];
    let list = sent(w.on_batch(&batch));
    assert!(w.on_send_result(list[0].id, true));
    assert!(w.on_send_result(list[1].id, true));
    assert!(!w.on_send_result(list[2].id, false));
    assert_eq!(w.seen_max(), Some(7));
    let retry = sent(w.on_batch(&batch));
    assert_eq!(retry, vec![n(9, "c")]);
}

#[test]
fn batch_max_is_largest_id() {
    assert_eq!(batch_max(&vec![n(3, "a"), n(-1, "b"), n(8, "c"), n(2, "d")]), 8);
    assert_eq!(batch_max(&vec![n(i64::MIN, "a")]), i64::MIN);
}

#[test]
fn message_text() {
    assert_eq!(
        notice_message(&n(6303, "Market Support for X")),
        "🔔 Upbit notice\nMarket Support for X\n\nhttps://www.upbit.com/service_center/notice?id=6303"
    );
}

#[test]
fn settings_defaults_and_floor() {
    assert_eq!(chat_id_setting(None), 215_555_555);
    assert_eq!(chat_id_setting(Some(" -42 ")), -42);
    assert_eq!(chat_id_setting(Some("x")), 215_555_555);
    assert_eq!(poll_secs_setting(None), 60);
    assert_eq!(poll_secs_setting(Some("2")), 5);
    assert_eq!(poll_secs_setting(Some("120\n")), 120);
    assert_eq!(poll_secs_setting(Some("-3")), 60);
}

#[test]
fn seen_file_text() {
    assert_eq!(parse_seen(" 123\n"), Some(123));
    assert_eq!(parse_seen("abc"), None);
    assert_eq!(parse_seen(""), None);
    assert_eq!(parse_seen("0"), Some(0));
}

#[test]
fn integer_parsing_like_std() {
    assert_eq!(parse_i64("42"), Some(42));
    assert_eq!(parse_i64("+7"), Some(7));
    assert_eq!(parse_i64("-0"), Some(0));
    assert_eq!(parse_i64("007"), Some(7));
    assert_eq!(parse_i64("-9223372036854775808"), Some(i64::MIN));
    assert_eq!(parse_i64("9223372036854775807"), Some(i64::MAX));
    assert_eq!(parse_i64("9223372036854775808"), None);
    assert_eq!(parse_i64("99999999999999999999999"), None);
    assert_eq!(parse_i64(""), None);
    assert_eq!(parse_i64("-"), None);
    assert_eq!(parse_i64("+"), None);
    assert_eq!(parse_i64("1a"), None);
    assert_eq!(parse_i64(" 1"), None);
    assert_eq!(parse_u64("-1"), None);
    assert_eq!(parse_u64("+5"), Some(5));
    assert_eq!(parse_u64("18446744073709551615"), Some(u64::MAX));
    assert_eq!(parse_u64("18446744073709551616"), None);
    assert_eq!(parse_trimmed_i64("\t12 "), Some(12));
    assert_eq!(parse_trimmed_u64(" 9 "), Some(9));
    for text in ["42", "+7", "-0", "007", "", "-", "1a", "9223372036854775808", "-9223372036854775808"] {
        assert_eq!(parse_i64(text), text.parse::<i64>().ok(), "{text}");
    }
}

#[test]
fn decimal_text_round_trips() {
    assert_eq!(decimal_string(0), "0");
    assert_eq!(decimal_string(6303), "6303");
    assert_eq!(decimal_string(-15), "-15");
    assert_eq!(decimal_string(i64::MIN), "-9223372036854775808");
    for id in [0, 1, -1, 6303, i64::MAX, i64::MIN] {
        assert_eq!(parse_seen(&format!("{}\n", decimal_string(id))), Some(id));
        assert_eq!(decimal_string(id), id.to_string());
    }
}

#[test]
fn zero_state_treats_everything_as_new() {
    let mut w = Watcher::new(parse_seen("0"));
    let batch = vec![n(12, "b"), n(11, "a")];
    assert_eq!(sent(w.on_batch(&batch)), vec![n(11, "a"), n(12, "b")]);
}

#[test]
fn list_response_errors_and_notices() {
    let body = r#"{"success":true,"data":{"notices":[{"id":5,"title":"A"},{"id":"x","title":"B"},{"id":7,"title":"C"}]}}"#;
    assert_eq!(notices_from_response(true, "200 OK", body), Ok(vec![n(5, "A"), n(7, "C")]));
    assert_eq!(
        notices_from_response(true, "200 OK", r#"{"data":{"list":[1,2]}}"#),
        Err("no notices array in response".to_string())
    );
    let e = notices_from_response(true, "200 OK", "<html>").unwrap_err();
    assert!(e.starts_with("json parse: "), "{e}");
    assert_eq!(
        notices_from_response(false, "403 Forbidden", "blocked"),
        Err("HTTP 403 Forbidden: blocked".to_string())
    );
    let long: String = "가".repeat(200);
    let e = notices_from_response(false, "503 Service Unavailable", &long).unwrap_err();
    assert_eq!(e, format!("HTTP 503 Service Unavailable: {}", "가".repeat(180)));
}
