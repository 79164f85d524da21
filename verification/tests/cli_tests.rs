use upbit_notice::cli::{
    analyze, candidates, outcome, parse_args, parse_lang, probe_candidates, probe_exit_code,
    request_urls, Command, Lang, Opts, Outcome, UrlSearch,
};
use upbit_notice::json::{
    find_field, find_notices_array, is_notice_obj, json_field, parse_json, JsonValue,
};

fn args(v: &[&str]) -> Vec<String> {
    v.iter().map(|s| s.to_string()).collect()
}

fn run(v: &[&str]) -> Opts {
    match parse_args(&args(v)) {
        Ok(Command::Run(o)) => o,
        other => panic!("expected options, got {:?}", other),
    }
}

fn err(v: &[&str]) -> String {
    match parse_args(&args(v)) {
        Err(e) => e,
        other => panic!("expected an error, got {:?}", other),
    }
}

fn s(x: &str) -> JsonValue {
    JsonValue::Str(x.to_string())
}

fn num(x: i64) -> JsonValue {
    JsonValue::Number(Some(x))
}

fn obj(members: Vec<(&str, JsonValue)>) -> JsonValue {
    JsonValue::Object(members.into_iter().map(|(k, v)| (k.to_string(), v)).collect())
}

#[test]
fn lang_labels_and_headers() {
    assert_eq!(Lang::En.label(), "en");
    assert_eq!(Lang::Ko.label(), "ko");
    assert_eq!(Lang::En.accept(), "en-US,en;q=0.9,ko;q=0.5");
    assert_eq!(Lang::Ko.accept(), "ko-KR,ko;q=0.9,en;q=0.5");
}

#[test]
fn parse_lang_accepts_names_in_any_case() {
    assert_eq!(parse_lang("EN"), Ok(Lang::En));
    assert_eq!(parse_lang("english"), Ok(Lang::En));
    assert_eq!(parse_lang("ko"), Ok(Lang::Ko));
    assert_eq!(parse_lang("KR"), Ok(Lang::Ko));
    assert_eq!(parse_lang("Korean"), Ok(Lang::Ko));
}

#[test]
fn parse_lang_refuses_others() {
    assert_eq!(parse_lang("fr"), Err("unknown lang 'fr' (use en|ko)".to_string()));
    assert_eq!(parse_lang("FR"), Err("unknown lang 'fr' (use en|ko)".to_string()));
    assert_eq!(parse_lang(""), Err("unknown lang '' (use en|ko)".to_string()));
}

#[test]
fn parse_args_defaults() {
    let o = run(&[]);
    assert_eq!(o.target, "6303");
    assert!(!o.is_url);
    assert_eq!(o.term, "Market Support");
    assert_eq!(o.lang, Lang::En);
    assert!(!o.raw);
    assert!(!o.probe);
}

#[test]
fn parse_args_positionals() {
    let o = run(&["https://api/x", "Listing"]);
    assert_eq!(o.target, "https://api/x");
    assert!(o.is_url);
    assert_eq!(o.term, "Listing");
    assert!(run(&["http://a"]).is_url);
    let o = run(&["7000", "Trade", "extra"]);
    assert_eq!(o.target, "7000");
    assert!(!o.is_url);
    assert_eq!(o.term, "Trade");
    let o = run(&["-x"]);
    assert_eq!(o.target, "-x");
}

#[test]
fn parse_args_flags() {
    let o = run(&["--lang", "KO", "--raw"]);
    assert_eq!(o.lang, Lang::Ko);
    assert!(o.raw);
    assert_eq!(run(&["--lang=english"]).lang, Lang::En);
    assert_eq!(run(&["-l", "kr"]).lang, Lang::Ko);
    assert!(run(&["--probe"]).probe);
    let o = run(&["6000", "--lang", "ko", "Deposit"]);
    assert_eq!(o.target, "6000");
    assert_eq!(o.term, "Deposit");
}

#[test]
fn parse_args_errors() {
    assert_eq!(err(&["--lang"]), "--lang needs a value (en|ko)");
    assert_eq!(err(&["--lang", "de"]), "unknown lang 'de' (use en|ko)");
    assert_eq!(err(&["--lang=DE"]), "unknown lang 'de' (use en|ko)");
    assert_eq!(err(&["--verbose"]), "unknown flag --verbose");
    assert_eq!(err(&["--verbose", "--help"]), "unknown flag --verbose");
}

#[test]
fn parse_args_help_stops_reading() {
    assert!(matches!(parse_args(&args(&["-h", "--verbose"])), Ok(Command::Help)));
    assert!(matches!(parse_args(&args(&["x", "--help"])), Ok(Command::Help)));
}

#[test]
fn candidate_urls() {
    assert_eq!(
        candidates("6303", Lang::En),
        vec![
            "https://api-manager.upbit.com/api/v1/announcements/6303?os=web&language=en".to_string(),
            "https://www.upbit.com/service_center/notice?id=6303".to_string(),
        ]
    );
    assert_eq!(
        candidates("1", Lang::Ko),
        vec![
            "https://api-manager.upbit.com/api/v1/announcements/1?os=web&language=ko".to_string(),
            "https://www.upbit.com/service_center/notice?id=1".to_string(),
        ]
    );
    let base = "https://api-manager.upbit.com/api/v1/announcements/6303";
    assert_eq!(
        probe_candidates("6303"),
        vec![
            format!("{base}?os=web&language=en"),
            format!("{base}?os=web&lang=en"),
            format!("{base}?os=web&locale=en"),
            format!("{base}?os=web&language=ko"),
            format!("{base}?os=web"),
        ]
    );
}

#[test]
fn request_urls_by_mode() {
    let o = run(&["https://x/y", "--probe"]);
    assert_eq!(request_urls(&o), vec!["https://x/y".to_string()]);
    let o = run(&["42", "--probe"]);
    assert_eq!(request_urls(&o).len(), 5);
    let o = run(&["42", "-l", "ko"]);
    assert_eq!(
        request_urls(&o),
        vec![
            "https://api-manager.upbit.com/api/v1/announcements/42?os=web&language=ko".to_string(),
            "https://www.upbit.com/service_center/notice?id=42".to_string(),
        ]
    );
}

#[test]
fn exit_codes() {
    assert_eq!(outcome(false, 0), Outcome::Unreachable);
    assert_eq!(outcome(true, 0), Outcome::NotFound);
    assert_eq!(outcome(true, 3), Outcome::Found);
    assert_eq!(Outcome::Found.exit_code(), 0);
    assert_eq!(Outcome::NotFound.exit_code(), 2);
    assert_eq!(Outcome::Unreachable.exit_code(), 1);
    assert_eq!(probe_exit_code(true), 0);
    assert_eq!(probe_exit_code(false), 1);
}

#[test]
fn find_field_depth_first() {
    let v = obj(vec![("data", obj(vec![("title", s("T")), ("body", s("B"))]))]);
    assert_eq!(find_field(&v, "title"), Some("T".to_string()));
    assert_eq!(find_field(&v, "missing"), None);
    let v = obj(vec![("title", num(5)), ("inner", obj(vec![("title", s("inner"))]))]);
    assert_eq!(find_field(&v, "title"), Some("inner".to_string()));
    let v = JsonValue::Array(vec![obj(vec![("a", num(1))]), obj(vec![("title", s("x"))])]);
    assert_eq!(find_field(&v, "title"), Some("x".to_string()));
    let v = obj(vec![
        ("a", obj(vec![("title", s("first"))])),
        ("b", obj(vec![("title", s("second"))])),
    ]);
    assert_eq!(find_field(&v, "title"), Some("first".to_string()));
    assert_eq!(json_field("not json", "title"), None);
    assert_eq!(json_field("\"x\"", "title"), None);
    assert_eq!(
        json_field(r#"{"data":{"list":[{"title":"A"},{"title":"B"}]}}"#, "title"),
        Some("A".to_string())
    );
}

#[test]
fn notice_objects() {
    assert!(is_notice_obj(&obj(vec![("id", num(1)), ("title", s("t"))])));
    assert!(!is_notice_obj(&obj(vec![("id", JsonValue::Number(None)), ("title", s("t"))])));
    assert!(!is_notice_obj(&obj(vec![("id", s("1")), ("title", s("t"))])));
    assert!(!is_notice_obj(&obj(vec![("id", num(1))])));
    assert!(!is_notice_obj(&JsonValue::Array(vec![])));
}

#[test]
fn notices_array_location() {
    let n = || obj(vec![("id", num(1)), ("title", s("a"))]);
    let v = obj(vec![("data", obj(vec![("notices", JsonValue::Array(vec![n(), n()]))]))]);
    assert_eq!(find_notices_array(&v).map(|a| a.len()), Some(2));
    let v = obj(vec![("data", JsonValue::Array(vec![num(3), n()]))]);
    assert_eq!(find_notices_array(&v).map(|a| a.len()), Some(2));
    let v = obj(vec![("notices", num(3)), ("list", JsonValue::Array(vec![n()]))]);
    assert_eq!(find_notices_array(&v).map(|a| a.len()), Some(1));
    let v = obj(vec![
        ("x", JsonValue::Array(vec![n()])),
        ("y", obj(vec![("notices", JsonValue::Array(vec![]))])),
    ]);
    assert_eq!(find_notices_array(&v).map(|a| a.len()), Some(0));
    let v = obj(vec![("data", JsonValue::Array(vec![num(1)]))]);
    assert!(find_notices_array(&v).is_none());
}

#[test]
fn analyze_a_response() {
    let raw = r#"{"data":{"title":"Market Support for X","category":"Trade","body":"<p>Hello</p>"}}"#;
    let a = analyze(raw, "market support");
    assert_eq!(a.title, Some("Market Support for X".to_string()));
    assert_eq!(a.category, Some("Trade".to_string()));
    assert_eq!(a.body_text, "\nHello\n");
    assert_eq!(a.body_lang, "en");
    assert_eq!(a.hits, vec![18]);
}

#[test]
fn analyze_unparsed_response() {
    let a = analyze("<html>blocked</html>", "blocked");
    assert_eq!(a.title, None);
    assert_eq!(a.category, None);
    assert_eq!(a.body_text, "");
    assert_eq!(a.body_lang, "en");
    assert_eq!(a.hits, vec![6]);
}

#[test]
fn parse_json_converts_serde_values() {
    let v = parse_json(r#"{"b":[1,2.5,true,null,"s"],"a":-3,"big":18446744073709551615}"#).unwrap();
    match v {
        JsonValue::Object(m) => {
            let keys: Vec<&str> = m.iter().map(|(k, _)| k.as_str()).collect();
            assert_eq!(keys, vec!["a", "b", "big"]);
            assert!(matches!(m[0].1, JsonValue::Number(Some(-3))));
            assert!(matches!(m[2].1, JsonValue::Number(None)));
            match &m[1].1 {
                JsonValue::Array(items) => {
                    assert!(matches!(items[0], JsonValue::Number(Some(1))));
                    assert!(matches!(items[1], JsonValue::Number(None)));
                    assert!(matches!(items[2], JsonValue::Bool(true)));
                    assert!(matches!(items[3], JsonValue::Null));
                    assert!(matches!(&items[4], JsonValue::Str(x) if x == "s"));
                }
                other => panic!("expected an array, got {:?}", other),
            }
        }
        other => panic!("expected an object, got {:?}", other),
    }
    assert!(parse_json("{").is_err());
}

fn api(lang_body: &str) -> String {
    format!(r#"{{"data":{{"title":"t","body":"<p>{lang_body}</p>"}}}}"#)
}

#[test]
fn search_stops_at_a_response_in_the_language() {
    let mut s = UrlSearch::new(Lang::En);
    assert!(s.on_response(Some(&api("Market Support for Re"))));
    assert_eq!(s.chosen(), Some(0));
}

#[test]
fn search_falls_back_to_the_share_page() {
    let mut s = UrlSearch::new(Lang::En);
    assert!(!s.on_response(None));
    assert!(!s.on_response(Some("<html>React shell</html>")));
    assert_eq!(s.chosen(), Some(1));
}

#[test]
fn search_keeps_first_answer_when_none_reads_in_the_language() {
    let mut s = UrlSearch::new(Lang::En);
    assert!(!s.on_response(Some(&api("마켓 지원 안내"))));
    assert!(!s.on_response(Some("<html></html>")));
    assert_eq!(s.chosen(), Some(0));
    let mut k = UrlSearch::new(Lang::Ko);
    assert!(!k.on_response(Some(&api("Market support"))));
    assert!(k.on_response(Some(&api("마켓 지원 안내"))));
    assert_eq!(k.chosen(), Some(1));
}

#[test]
fn search_with_no_answer() {
    let mut s = UrlSearch::new(Lang::En);
    assert!(!s.on_response(None));
    assert!(!s.on_response(None));
    assert_eq!(s.chosen(), None);
}
