use liquid_filters::append;
use liquid_filters::default_value;
use liquid_filters::escape;
use liquid_filters::handleize;
use liquid_filters::newline_to_br;
use liquid_filters::pluralize;
use liquid_filters::prepend;
use liquid_filters::strip_html;
use liquid_filters::strip_newlines;
use liquid_filters::truncate;

#[test]
fn escape_identity_without_specials() {
    let samples = ["", "plain text", "héllo wörld", "1 + 1 = 2", "日本語"];
    for s in samples {
        assert_eq!(escape(Some(s.to_string())), s);
    }
}

#[test]
fn escape_unescape_round_trip() {
    let samples = ["a & b < c > d \" e ' f", "&&&", "<'\">&", "no specials"];
    for s in samples {
        let escaped = escape(Some(s.to_string()));
        let unescaped = escaped
            .replace("&lt;", "<")
            .replace("&gt;", ">")
            .replace("&quot;", "\"")
            .replace("&#x27;", "'")
            .replace("&amp;", "&");
        assert_eq!(unescaped, s);
    }
}

#[test]
fn escape_empty_is_empty() {
    assert_eq!(escape(Some("".to_string())), "");
}

#[test]
fn strip_html_idempotent() {
    let samples = [
        "<p>Hello <strong>World</strong></p>",
        "a  b\t\tc",
        "  lead and trail  ",
        "text > with stray",
        "<a href=\"x\">link</a> tail",
    ];
    for s in samples {
        let once = strip_html(Some(s.to_string()));
        let twice = strip_html(Some(once.clone()));
        assert_eq!(twice, once);
    }
}

#[test]
fn strip_html_unterminated_tag_drops_rest() {
    assert_eq!(strip_html(Some("before <div class".to_string())), "before");
    assert_eq!(strip_html(Some("<never closed".to_string())), "");
}

#[test]
fn strip_html_collapses_whitespace() {
    assert_eq!(strip_html(Some("a \t  b".to_string())), "a b");
    assert_eq!(strip_html(Some("  spaced  ".to_string())), "spaced");
}

#[test]
fn strip_newlines_leaves_no_newline() {
    let samples = ["\r\n\r\n", "a\nb\rc", "mixed \r text\n", "none"];
    for s in samples {
        let out = strip_newlines(Some(s.to_string()));
        assert!(!out.contains('\n'));
        assert!(!out.contains('\r'));
    }
    assert_eq!(strip_newlines(Some("\r\n".to_string())), "");
}

#[test]
fn newline_to_br_pairs_before_singles() {
    assert_eq!(newline_to_br(Some("\n\r".to_string())), "<br><br>");
    assert_eq!(newline_to_br(Some("\r\n".to_string())), "<br>");
    assert_eq!(newline_to_br(Some("\r\r\n".to_string())), "<br><br>");
}

#[test]
fn append_then_prepend_orders() {
    assert_eq!(append(Some("a".to_string()), Some("b".to_string())), "ab");
    assert_eq!(prepend(Some("a".to_string()), Some("b".to_string())), "ba");
    assert_eq!(prepend(None, None), "");
}

#[test]
fn handleize_trims_and_collapses_hyphens() {
    assert_eq!(handleize(Some("---".to_string())), "");
    assert_eq!(handleize(Some("a--b".to_string())), "a-b");
    assert_eq!(handleize(Some("UPPER case".to_string())), "upper-case");
    assert_eq!(handleize(Some("".to_string())), "");
}

#[test]
fn truncate_respects_length_bound() {
    let out = truncate(Some("a long piece of text".to_string()), Some(10), None);
    assert!(out.chars().count() <= 10);
    assert_eq!(out, "a long ...");
}

#[test]
fn truncate_edge_cases() {
    assert_eq!(truncate(Some("Hello".to_string()), Some(5), None), "Hello");
    assert_eq!(
        truncate(Some("abcdef".to_string()), Some(2), Some("....".to_string())),
        "...."
    );
    assert_eq!(truncate(Some("".to_string()), Some(8), None), "");
    assert_eq!(truncate(None, Some(8), None), "");
    let long = "x".repeat(60);
    assert_eq!(truncate(Some(long), None, None), format!("{}...", "x".repeat(47)));
}

#[test]
fn truncate_counts_characters_not_bytes() {
    assert_eq!(
        truncate(Some("ééééé".to_string()), Some(4), Some("…".to_string())),
        "ééé…"
    );
}

#[test]
fn pluralize_negative_and_default_plural() {
    assert_eq!(pluralize(-1, "item".to_string(), None), "items");
    assert_eq!(pluralize(1, "box".to_string(), Some("boxes".to_string())), "box");
}

#[test]
fn default_value_keeps_nonempty() {
    assert_eq!(default_value(Some(" ".to_string()), "N/A".to_string()), " ");
}
