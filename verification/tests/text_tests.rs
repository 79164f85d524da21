use upbit_notice::html::{html_to_text, unescape};
use upbit_notice::scan::{context, detect_lang, find_ci_ascii, looks_like_cloudflare_block, truncate};

#[test]
fn html_block_tags_become_newlines() {
    assert_eq!(html_to_text("<p>Hello</p><p>World</p>"), "\nHello\n\nWorld\n");
}

#[test]
fn html_blank_runs_collapse_to_one() {
    assert_eq!(html_to_text("a\n\n\n\nb"), "a\n\nb\n");
    assert!(!html_to_text("<p></p><p></p><br><br>x<br><br><br>y").contains("\n\n\n"));
}

#[test]
fn html_inline_tags_dropped_and_lines_trimmed() {
    assert_eq!(
        html_to_text("<div>  Tom &amp; Jerry  </div><span>x</span>"),
        "\nTom & Jerry\nx\n"
    );
}

#[test]
fn html_unterminated_tag_and_odd_names() {
    assert_eq!(html_to_text("x<p"), "x\n");
    assert_eq!(html_to_text("</ div>a"), "a\n");
    assert_eq!(html_to_text("<BR/>a"), "\na\n");
    assert_eq!(html_to_text("<  /div >a"), "\na\n");
}

#[test]
fn html_empty_and_crlf() {
    assert_eq!(html_to_text(""), "");
    assert_eq!(html_to_text("line\r\nnext"), "line\nnext\n");
}

#[test]
fn unescape_does_not_double_decode() {
    assert_eq!(unescape("&amp;lt;"), "&lt;");
}

#[test]
fn unescape_all_entities() {
    assert_eq!(
        unescape("&lt;b&gt; &quot;q&quot; &#39;s&apos; a&nbsp;b"),
        "<b> \"q\" 's' a b"
    );
    assert_eq!(unescape("no entities"), "no entities");
}

#[test]
fn detect_lang_by_dominant_script() {
    assert_eq!(detect_lang("안녕하세요 hi"), "ko");
    assert_eq!(detect_lang("hello 안녕"), "en");
    assert_eq!(detect_lang("가a"), "en");
    assert_eq!(detect_lang(""), "en");
    assert_eq!(detect_lang("123 !!"), "en");
}

#[test]
fn find_ci_ascii_ignores_ascii_case() {
    let hay = "Market Support for Re(RE) market support";
    assert_eq!(find_ci_ascii(hay, "market SUPPORT"), vec![0, 26]);
}

#[test]
fn find_ci_ascii_edge_cases() {
    assert_eq!(find_ci_ascii("abc", ""), Vec::<usize>::new());
    assert_eq!(find_ci_ascii("ab", "abc"), Vec::<usize>::new());
    assert_eq!(find_ci_ascii("aaa", "aa"), vec![0, 1]);
    assert_eq!(find_ci_ascii("", "a"), Vec::<usize>::new());
}

#[test]
fn find_ci_ascii_offsets_are_byte_offsets_on_char_boundaries() {
    let hay = "마켓 Market";
    let hits = find_ci_ascii(hay, "market");
    assert_eq!(hits, vec![7]);
    for &h in &hits {
        assert!(hay.is_char_boundary(h));
    }
    let hay2 = "공지 공지사항";
    let hits2 = find_ci_ascii(hay2, "공지");
    assert_eq!(hits2, vec![0, 7]);
    for &h in &hits2 {
        assert!(hay2.is_char_boundary(h));
    }
}

#[test]
fn context_flattens_newlines() {
    assert_eq!(context("hello\nworld foo", 6, 5, 2), "o world f");
}

#[test]
fn context_widens_to_char_boundaries() {
    assert_eq!(context("가나다", 4, 1, 0), "나");
}

#[test]
fn context_clips_and_trims() {
    assert_eq!(context("abc", 10, 1, 2), "");
    assert_eq!(context("  x  ", 2, 1, 5), "x");
    assert_eq!(context("abcdef", 0, 2, 1), "abc");
}

#[test]
fn truncate_marks_a_cut() {
    assert_eq!(truncate("hello", 3), "hel…");
    assert_eq!(truncate("hello", 5), "hello");
    assert_eq!(truncate("안녕하세요", 2), "안녕…");
    assert_eq!(truncate("", 0), "");
    assert_eq!(truncate("ab", 0), "…");
}

#[test]
fn cloudflare_block_pages_are_recognised() {
    assert!(looks_like_cloudflare_block("<title>Attention Required! | Cloudflare</title>"));
    assert!(looks_like_cloudflare_block("Sorry, you have been BLOCKED by CloudFlare"));
    assert!(looks_like_cloudflare_block("<div id=\"cf-error-details\">"));
    assert!(!looks_like_cloudflare_block("cloudflare"));
    assert!(!looks_like_cloudflare_block("{\"title\":\"ok\"}"));
    assert!(!looks_like_cloudflare_block(""));
}
