use liquid_filters::append;
use liquid_filters::default_value;
use liquid_filters::escape;
use liquid_filters::handleize;
use liquid_filters::newline_to_br;
use liquid_filters::pluralize;
use liquid_filters::prepend;
use liquid_filters::strip_html;
use liquid_filters::strip_newlines;
use liquid_filters::truncate;

#[test]
fn test_escape() {
    assert_eq!(
        escape(Some("<script>alert('XSS')</script>".to_string())),
        "&lt;script&gt;alert(&#x27;XSS&#x27;)&lt;/script&gt;"
    );
    assert_eq!(escape(Some("Rock & Roll".to_string())), "Rock &amp; Roll");
    assert_eq!(escape(None), "");
}

#[test]
fn test_strip_html() {
    assert_eq!(
        strip_html(Some("<p>Hello <strong>World</strong></p>".to_string())),
        "Hello World"
    );
    assert_eq!(
        strip_html(Some("<div>Test</div><span>Content</span>".to_string())),
        "Test Content"
    );
    assert_eq!(strip_html(None), "");
}

#[test]
fn test_strip_newlines() {
    assert_eq!(
        strip_newlines(Some("Hello\nWorld\r\n!".to_string())),
        "HelloWorld!"
    );
    assert_eq!(strip_newlines(None), "");
}

#[test]
fn test_newline_to_br() {
    assert_eq!(
        newline_to_br(Some("Hello\nWorld".to_string())),
        "Hello<br>World"
    );
    assert_eq!(
        newline_to_br(Some("Line1\r\nLine2\rLine3".to_string())),
        "Line1<br>Line2<br>Line3"
    );
    assert_eq!(newline_to_br(None), "");
}

#[test]
fn test_append() {
    assert_eq!(
        append(Some("Hello".to_string()), Some(" World".to_string())),
        "Hello World"
    );
    assert_eq!(append(None, Some("World".to_string())), "World");
    assert_eq!(append(Some("Hello".to_string()), None), "Hello");
    assert_eq!(append(None, None), "");
}

#[test]
fn test_prepend() {
    assert_eq!(
        prepend(Some("World".to_string()), Some("Hello ".to_string())),
        "Hello World"
    );
    assert_eq!(prepend(None, Some("Hello".to_string())), "Hello");
    assert_eq!(prepend(Some("World".to_string()), None), "World");
}

#[test]
fn test_handleize() {
    assert_eq!(handleize(Some("Hello World".to_string())), "hello-world");
    assert_eq!(handleize(Some("Ñoño & Friends".to_string())), "nono-friends");
    assert_eq!(handleize(Some("Café con leche".to_string())), "cafe-con-leche");
    assert_eq!(
        handleize(Some("  Multiple   Spaces  ".to_string())),
        "multiple-spaces"
    );
    assert_eq!(handleize(Some("!!!Exclamation!!!".to_string())), "exclamation");
    assert_eq!(handleize(None), "");
}

#[test]
fn test_truncate() {
    assert_eq!(
        truncate(Some("Hello World".to_string()), Some(8), None),
        "Hello..."
    );
    assert_eq!(truncate(Some("Short".to_string()), Some(50), None), "Short");
    assert_eq!(
        truncate(Some("Hello World".to_string()), Some(8), Some("…".to_string())),
        "Hello W…"
    );
}

#[test]
fn test_pluralize() {
    assert_eq!(pluralize(1, "item".to_string(), None), "item");
    assert_eq!(pluralize(2, "item".to_string(), None), "items");
    assert_eq!(pluralize(0, "item".to_string(), None), "items");
    assert_eq!(
        pluralize(2, "box".to_string(), Some("boxes".to_string())),
        "boxes"
    );
}

#[test]
fn test_default_value() {
    assert_eq!(default_value(None, "N/A".to_string()), "N/A");
    assert_eq!(default_value(Some("".to_string()), "N/A".to_string()), "N/A");
    assert_eq!(
        default_value(Some("Hello".to_string()), "N/A".to_string()),
        "Hello"
    );
}
