use antml_fallback::markers::CLOSE_FUNCTION_CALLS;
use antml_fallback::markers::CLOSE_INVOKE;
use antml_fallback::markers::CLOSE_PARAM;
use antml_fallback::markers::OPEN_FUNCTION_CALLS;
use antml_fallback::markers::OPEN_INVOKE_PREFIX;
use antml_fallback::markers::OPEN_PARAM_PREFIX;
use antml_fallback::markers::TRIGGER_MARKERS;
use antml_fallback::parse_function_calls;
use antml_fallback::scan_for_sentinel;
use antml_fallback::stream::scan_for_any_sentinel;
use antml_fallback::AntmlStreamGuard;
use antml_fallback::Json;
use antml_fallback::SentinelScan;

fn param(name: &str, value: &str) -> String {
    format!("{OPEN_PARAM_PREFIX} name=\"{name}\">{value}{CLOSE_PARAM}")
}

fn invoke(name: &str, params: &[(&str, &str)]) -> String {
    let body: String = params.iter().map(|(n, v)| param(n, v)).collect();
    format!("{OPEN_INVOKE_PREFIX} name=\"{name}\">{body}{CLOSE_INVOKE}")
}

fn wrap(prose: &str, invokes: &[String]) -> String {
    format!("{prose}{OPEN_FUNCTION_CALLS}{}{CLOSE_FUNCTION_CALLS}", invokes.concat())
}

fn bare_param(name: &str, value: &str) -> String {
    format!("<parameter name=\"{name}\">{value}</parameter>")
}

fn bare_invoke(name: &str, params: &[(&str, &str)]) -> String {
    let body: String = params.iter().map(|(n, v)| bare_param(n, v)).collect();
    format!("<invoke name=\"{name}\">{body}</invoke>")
}

fn text(content: &str) -> Json {
    Json::Text(content.to_string())
}

#[test]
fn guard_arms_on_bare_invoke() {
    let mut g = AntmlStreamGuard::new(true);
    let leaked = format!("看目录\n{}", bare_invoke("Bash", &[("command", "ls")]));
    let out = g.feed_text(&leaked);
    assert_eq!(out, "看目录\n");
    assert!(g.is_armed());
    let parsed = parse_function_calls(&g.take_buffer()).unwrap();
    assert_eq!(parsed.calls[0].input.get("command"), Some(&text("ls")));
}

#[test]
fn guard_handles_bare_invoke_split_across_chunks() {
    let mut g = AntmlStreamGuard::new(true);
    let out1 = g.feed_text("prose<inv");
    assert_eq!(out1, "prose");
    assert!(!g.is_armed());
    let out2 = g.feed_text(&format!("oke name=\"Bash\">{}</invoke>", bare_param("command", "ls")));
    assert_eq!(out2, "");
    assert!(g.is_armed());
    let parsed = parse_function_calls(&g.take_buffer()).unwrap();
    assert_eq!(parsed.calls[0].input.get("command"), Some(&text("ls")));
}

#[test]
fn scan_finds_full_sentinel() {
    let pending = format!("prefix{OPEN_FUNCTION_CALLS}rest");
    match scan_for_sentinel(&pending, OPEN_FUNCTION_CALLS) {
        SentinelScan::Found { idx } => {
            assert_eq!(&pending[idx..idx + OPEN_FUNCTION_CALLS.len()], OPEN_FUNCTION_CALLS)
        }
        other => panic!("expected Found, got {other:?}"),
    }
}

#[test]
fn scan_holds_back_partial_prefix() {
    let sentinel = OPEN_FUNCTION_CALLS;
    let head = "hello ";
    let partial = &sentinel[..5];
    let pending = format!("{head}{partial}");
    match scan_for_sentinel(&pending, sentinel) {
        SentinelScan::Partial { flush_len } => {
            assert_eq!(flush_len, head.len());
            assert_eq!(&pending[flush_len..], partial);
        }
        other => panic!("expected Partial, got {other:?}"),
    }
}

#[test]
fn scan_no_overlap_flushes_all() {
    let pending = "just some normal text";
    match scan_for_sentinel(pending, OPEN_FUNCTION_CALLS) {
        SentinelScan::Partial { flush_len } => assert_eq!(flush_len, pending.len()),
        other => panic!("expected Partial, got {other:?}"),
    }
}

#[test]
fn guard_passthrough_when_disabled() {
    let mut g = AntmlStreamGuard::new(false);
    assert_eq!(g.feed_text("anything <at all"), "anything <at all");
    assert!(!g.is_armed());
}

#[test]
fn guard_streams_plain_prose() {
    let mut g = AntmlStreamGuard::new(true);
    assert_eq!(g.feed_text("hello world"), "hello world");
    assert!(!g.is_armed());
    assert_eq!(g.take_unflushed_text(), "");
}

#[test]
fn guard_arms_on_wrapper_and_buffers_rest() {
    let mut g = AntmlStreamGuard::new(true);
    let leaked = wrap("看目录\n", &[invoke("Bash", &[("command", "ls")])]);
    let out = g.feed_text(&leaked);
    assert_eq!(out, "看目录\n");
    assert!(g.is_armed());
    assert_eq!(g.feed_text(" ignored"), "");
    let buf = g.take_buffer();
    let parsed = parse_function_calls(&buf).unwrap();
    assert_eq!(parsed.calls[0].name, "Bash");
}

#[test]
fn guard_handles_sentinel_split_across_chunks() {
    let mut g = AntmlStreamGuard::new(true);
    let sentinel = OPEN_FUNCTION_CALLS;
    let mid = 6;
    let first = &sentinel[..mid];
    let second = &sentinel[mid..];
    let out1 = g.feed_text(&format!("prose{first}"));
    assert_eq!(out1, "prose");
    assert!(!g.is_armed());
    let out2 = g.feed_text(&format!("{second}{}", invoke("Bash", &[("command", "ls")])));
    assert_eq!(out2, "");
    assert!(g.is_armed());
    let parsed = parse_function_calls(&g.take_buffer()).unwrap();
    assert_eq!(parsed.calls[0].input.get("command"), Some(&text("ls")));
}

#[test]
fn guard_take_buffer_idempotent() {
    let mut g = AntmlStreamGuard::new(true);
    g.feed_text(&wrap("", &[invoke("Bash", &[("command", "ls")])]));
    assert!(!g.take_buffer().is_empty());
    assert_eq!(g.take_buffer(), "");
}

#[test]
fn guard_unflushed_text_recovered_when_not_armed() {
    let mut g = AntmlStreamGuard::new(true);
    let partial = &OPEN_FUNCTION_CALLS[..5];
    let out = g.feed_text(&format!("tail{partial}"));
    assert_eq!(out, "tail");
    assert_eq!(g.take_unflushed_text(), partial);
}

#[test]
fn scan_edges() {
    assert_eq!(scan_for_sentinel("abc", ""), SentinelScan::Found { idx: 0 });
    assert_eq!(scan_for_sentinel("", ""), SentinelScan::Found { idx: 0 });
    assert_eq!(scan_for_sentinel("", "x"), SentinelScan::Partial { flush_len: 0 });
    assert_eq!(scan_for_sentinel("x", "x"), SentinelScan::Found { idx: 0 });
    assert_eq!(scan_for_sentinel("我<", "<a"), SentinelScan::Partial { flush_len: 3 });
    assert_eq!(scan_for_sentinel("我<a<a", "<a"), SentinelScan::Found { idx: 3 });
}

#[test]
fn scan_holds_the_longest_prefix() {
    assert_eq!(scan_for_sentinel("xabab", "ababc"), SentinelScan::Partial { flush_len: 1 });
    assert_eq!(scan_for_sentinel("aaaa", "aaab"), SentinelScan::Partial { flush_len: 1 });
}

#[test]
fn scan_takes_sentinels_that_are_not_ascii() {
    assert_eq!(scan_for_sentinel("目我", "我们"), SentinelScan::Partial { flush_len: 3 });
    assert_eq!(scan_for_sentinel("a我们", "我们"), SentinelScan::Found { idx: 1 });
}

#[test]
fn guard_gives_the_same_text_in_whatever_pieces() {
    let leaked = wrap("看 a<b <funct <inv\n", &[invoke("Bash", &[("command", "ls <x> 我")])]);
    let mut whole = AntmlStreamGuard::new(true);
    let prose = whole.feed_text(&leaked);
    let buffer = whole.take_buffer();
    for size in 1..=9usize {
        let mut g = AntmlStreamGuard::new(true);
        let mut passed = String::new();
        let chars: Vec<char> = leaked.chars().collect();
        for piece in chars.chunks(size) {
            let piece: String = piece.iter().collect();
            passed.push_str(&g.feed_text(&piece));
        }
        assert!(g.is_armed());
        assert_eq!(passed, prose);
        assert_eq!(g.take_buffer(), buffer);
    }
    assert_eq!(format!("{prose}{buffer}"), leaked);
    assert_eq!(prose, "看 a<b <funct <inv\n");
    let from_buffer = parse_function_calls(&buffer).unwrap();
    let from_whole = parse_function_calls(&leaked).unwrap();
    assert_eq!(from_buffer.calls, from_whole.calls);
    assert_eq!(from_buffer.prose, "");
    assert_eq!(from_whole.prose, prose.trim());
}

#[test]
fn guard_holds_only_the_start_of_a_marker() {
    for marker in TRIGGER_MARKERS {
        for cut in 1..marker.len() {
            let mut g = AntmlStreamGuard::new(true);
            assert_eq!(g.feed_text(&format!("ab{}", &marker[..cut])), "ab");
            assert!(!g.is_armed());
            assert_eq!(g.feed_text("!"), format!("{}!", &marker[..cut]));
            assert_eq!(g.take_unflushed_text(), "");
        }
        let mut g = AntmlStreamGuard::new(true);
        assert_eq!(g.feed_text(&format!("ab{marker}")), "ab");
        assert!(g.is_armed());
        assert_eq!(g.take_unflushed_text(), "");
        assert_eq!(g.take_buffer(), marker);
    }
}

#[test]
fn disabled_guard_holds_nothing() {
    let mut g = AntmlStreamGuard::new(false);
    let leaked = bare_invoke("Bash", &[("command", "ls")]);
    assert_eq!(g.feed_text(&leaked), leaked);
    assert_eq!(g.feed_text("<inv"), "<inv");
    assert!(!g.is_armed());
    assert_eq!(g.take_buffer(), "");
    assert_eq!(g.take_unflushed_text(), "");
}

#[test]
fn unflushed_text_is_given_once() {
    let mut g = AntmlStreamGuard::new(true);
    assert_eq!(g.feed_text("x<"), "x");
    assert_eq!(g.take_unflushed_text(), "<");
    assert_eq!(g.take_unflushed_text(), "");
}

#[test]
fn scan_for_any_gives_the_least_hit() {
    let pending = "我 cd ab";
    assert_eq!(scan_for_any_sentinel(pending, &["ab", "cd"]), SentinelScan::Found { idx: 4 });
    assert_eq!(scan_for_any_sentinel(pending, &["cd", "ab", "cd"]), SentinelScan::Found { idx: 4 });
    assert_eq!(scan_for_any_sentinel(pending, &["x", "ab"]), SentinelScan::Found { idx: 7 });
    assert_eq!(scan_for_sentinel(pending, "cd"), SentinelScan::Found { idx: 4 });
    assert_eq!(scan_for_sentinel(pending, "ab"), SentinelScan::Found { idx: 7 });
}

#[test]
fn scan_for_any_holds_the_longest_overlap() {
    let pending = "xabc";
    assert_eq!(scan_for_any_sentinel(pending, &["cd", "abcd"]), SentinelScan::Partial { flush_len: 1 });
    assert_eq!(scan_for_any_sentinel(pending, &["abcd", "cd"]), SentinelScan::Partial { flush_len: 1 });
    assert_eq!(scan_for_sentinel(pending, "cd"), SentinelScan::Partial { flush_len: 3 });
    assert_eq!(scan_for_sentinel(pending, "abcd"), SentinelScan::Partial { flush_len: 1 });
    assert_eq!(scan_for_any_sentinel(pending, &[]), SentinelScan::Partial { flush_len: 4 });
}
