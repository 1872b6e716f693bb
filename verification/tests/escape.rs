use zubolite::escape::esc_html;

#[test]
fn esc_html_escapes_the_five_specials() {
    assert_eq!(esc_html("a<b>&\"'"), "a&lt;b&gt;&amp;&quot;&#39;");
}

#[test]
fn esc_html_keeps_plain_text() {
    assert_eq!(esc_html(""), "");
    assert_eq!(esc_html("plain text 123"), "plain text 123");
    assert_eq!(esc_html("\u{65e5}\u{672c}"), "\u{65e5}\u{672c}");
}

#[test]
fn esc_html_does_not_escape_twice() {
    assert_eq!(esc_html("&amp;"), "&amp;amp;");
    assert_eq!(esc_html("&lt;"), "&amp;lt;");
}

#[test]
fn esc_html_output_has_no_markup_chars() {
    let out = esc_html("<script>alert('x') & \"y\"</script>");
    assert!(!out.contains('<') && !out.contains('>') && !out.contains('"') && !out.contains('\''));
}

#[test]
fn esc_html_injective_on_samples() {
    let samples = ["&", "&amp;", "<", "&lt;", "'", "&#39;", "\"", "&quot;", ">", "&gt;", "a"];
    for a in samples.iter() {
        for b in samples.iter() {
            if a != b {
                assert_ne!(esc_html(a), esc_html(b));
            }
        }
    }
}

#[test]
fn esc_html_decodes_back_by_five_replacements() {
    let samples = ["", "a<b>&\"'", "&amp;lt;", "&#39;'", "x & y < z > w \" v ' u"];
    for s in samples.iter() {
        let back = esc_html(s)
            .replace("&#39;", "'")
            .replace("&quot;", "\"")
            .replace("&gt;", ">")
            .replace("&lt;", "<")
            .replace("&amp;", "&");
        assert_eq!(&back, s);
    }
}
