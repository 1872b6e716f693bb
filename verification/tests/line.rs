use regex::Regex;
use zubolite::line::get_line_html;

// The line conversion written with the regex crate, as a cross-check of the
// library's own scanners for `[label]` and `(address)`.
fn regex_url(text: &str) -> Option<String> {
    let re = Regex::new(r"\((\S+)\)").unwrap();
    let caps: Vec<_> = re.captures_iter(text).map(|cap| cap[1].to_string()).collect();
    if caps.len() == 1 {
        caps.get(0).cloned()
    } else {
        None
    }
}

fn regex_line_html(text: &str) -> String {
    let re = Regex::new(r"\[(.*?)\]").unwrap();
    let vstr: Vec<&str> = re.split(text).collect();
    let caps: Vec<_> = re.captures_iter(text).map(|cap| cap[1].to_string()).collect();
    let paren = Regex::new(r"\((\S+)\)").unwrap();
    let mut html = String::new();
    let mut i = 0;
    while i < vstr.len() {
        let mut img = false;
        let s = vstr[i];
        let st = paren.replace(s, "").to_string();
        if st.ends_with('!') {
            html.push_str(&s[..s.len() - 1]);
            img = true;
        } else {
            html.push_str(&st);
        }
        let next = if i < vstr.len() - 1 { vstr[i + 1] } else { "" };
        let url = regex_url(next).unwrap_or_default();
        if i < caps.len() {
            if img {
                html.push_str(&format!("<img src='{}' alt='{}' />", url, caps[i]));
            } else if url.is_empty() {
                html.push_str(&format!("<a href='./{}'>{}</a>", urlencoding::encode(&caps[i]), caps[i]));
            } else {
                html.push_str(&format!("<a href='{}'>{}</a>", url, caps[i]));
            }
        }
        i += 1;
    }
    html
}

#[test]
fn line_without_markup_is_unchanged() {
    assert_eq!(get_line_html(""), "");
    assert_eq!(get_line_html("hello world"), "hello world");
}

#[test]
fn line_ending_with_bang_loses_it() {
    assert_eq!(get_line_html("hello!"), "hello");
}

#[test]
fn link_to_page() {
    assert_eq!(get_line_html("see [Top] now"), "see <a href='./Top'>Top</a> now");
}

#[test]
fn link_to_address() {
    assert_eq!(
        get_line_html("[Google](https://google.com)"),
        "<a href='https://google.com'>Google</a>"
    );
}

#[test]
fn image_link() {
    assert_eq!(get_line_html("![logo](img.png)"), "<img src='img.png' alt='logo' />");
    assert_eq!(get_line_html("![logo]"), "<img src='' alt='logo' />");
}

#[test]
fn link_label_is_percent_encoded() {
    assert_eq!(
        get_line_html("[\u{65e5}\u{672c}]"),
        "<a href='./%E6%97%A5%E6%9C%AC'>\u{65e5}\u{672c}</a>"
    );
    assert_eq!(get_line_html("[a b]"), "<a href='./a%20b'>a b</a>");
}

#[test]
fn two_links() {
    assert_eq!(
        get_line_html("[A] and [B](http://b)"),
        "<a href='./A'>A</a> and <a href='http://b'>B</a>"
    );
}

#[test]
fn address_with_two_markups_is_not_used() {
    assert_eq!(get_line_html("[A](x) (y)"), "<a href='./A'>A</a> (y)");
}

#[test]
fn matches_regex_on_samples() {
    let samples = [
        "",
        "x",
        "[",
        "]",
        "[]",
        "[[a]]",
        "[a]b]",
        "[a][b]",
        "a[b]c[d]e",
        "![x](y)",
        "!![x](y)z!",
        "[x](a b)",
        "[x](a)b)",
        "[x]((a))",
        "[x]()",
        "[x](\u{3000}a)",
        "(a)[x](b)",
        "[x](a) (b)",
        "t!(u)[x]",
        "t!(u)[x](v)",
        "[a\rb](c\u{a0}d)",
        "pre [\u{65e5}\u{672c}] post!",
        "[x](y)!",
        "end!(a)",
        "a(b)c(d)!",
        "[ ](( ))",
        "[x])",
        "(x",
        "[x](a\tb)(c)",
    ];
    for s in samples.iter() {
        assert_eq!(get_line_html(s), regex_line_html(s), "input {:?}", s);
    }
}

#[test]
fn matches_regex_on_generated_lines() {
    let alphabet = ['[', ']', '(', ')', '!', 'a', ' ', '\u{3000}'];
    let mut seed: u64 = 12345;
    for _ in 0..3000 {
        let mut s = String::new();
        seed = seed.wrapping_mul(6364136223846793005).wrapping_add(1442695040888963407);
        let len = (seed >> 33) % 12;
        for _ in 0..len {
            seed = seed.wrapping_mul(6364136223846793005).wrapping_add(1442695040888963407);
            s.push(alphabet[((seed >> 33) % alphabet.len() as u64) as usize]);
        }
        assert_eq!(get_line_html(&s), regex_line_html(&s), "input {:?}", s);
    }
}
