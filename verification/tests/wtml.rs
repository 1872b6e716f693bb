use zubolite::wtml::get_html_from_wtml;

fn conv(s: &str) -> String {
    get_html_from_wtml(&s.to_string())
}

#[test]
fn plain_lines_get_line_breaks() {
    assert_eq!(conv(""), "");
    assert_eq!(conv("a\nb"), "a<br/>\nb<br/>\n");
    assert_eq!(conv("a\r\nb\n"), "a<br/>\nb<br/>\n");
    assert_eq!(conv("a\n\nb"), "a<br/>\n<br/>\nb<br/>\n");
}

#[test]
fn numbered_headings_make_a_table_of_contents() {
    assert_eq!(
        conv("#Title\ntext"),
        "<div class='table_of_contents'>\n\u{3000}<a href='row1'>Title</a><br/>\n</div>\
         <h2 id='row1'>Title</h2>\n<br/>\ntext<br/>\n"
    );
    assert_eq!(
        conv("##Sub\n###Deep"),
        "<div class='table_of_contents'>\n\
         \u{3000}\u{3000}\u{3000}<a href='row1'>Sub</a><br/>\n\
         \u{3000}\u{3000}\u{3000}\u{3000}\u{3000}<a href='row2'>Deep</a><br/>\n</div>\
         <h3 id='row1'>Sub</32>\n<br/>\n<h4 id='row2'>Deep</h4>\n<br/>\n"
    );
}

#[test]
fn unnumbered_headings() {
    assert_eq!(conv("#-One"), "<h2>One</h2>\n<br/>\n");
    assert_eq!(conv("##-Two"), "<h3>Two</h3>\n<br/>\n");
    assert_eq!(conv("###-Three"), "<h4>Three</h4>\n<br/>\n");
}

#[test]
fn heading_marks_are_trimmed_repeatedly_and_text_escaped() {
    assert_eq!(conv("#-#-A<b>"), "<h2>A&lt;b&gt;</h2>\n<br/>\n");
    assert_eq!(conv("####x"), "<div class='table_of_contents'>\n\u{3000}\u{3000}\u{3000}\u{3000}\u{3000}<a href='row1'>#x</a><br/>\n</div><h4 id='row1'>#x</h4>\n<br/>\n");
}

#[test]
fn rule_line() {
    assert_eq!(conv("---"), "<hr /><br/>\n");
    assert_eq!(conv("----more"), "<hr /><br/>\n");
}

#[test]
fn links_inside_pages() {
    assert_eq!(conv("go [Home]"), "go <a href='./Home'>Home</a><br/>\n");
}

#[test]
fn many_headings_are_numbered_in_order() {
    let mut w = String::new();
    for i in 0..12 {
        w.push_str(&format!("#h{}\n", i));
    }
    let out = conv(&w);
    assert!(out.starts_with("<div class='table_of_contents'>\n"));
    for i in 1..=12 {
        assert!(out.contains(&format!("<h2 id='row{}'>h{}</h2>", i, i - 1)));
    }
}

#[test]
fn crlf_and_lf_give_the_same_html() {
    assert_eq!(conv("#A\r\n[x]\r\ny"), conv("#A\n[x]\ny"));
}

#[test]
fn final_line_feed_changes_nothing() {
    assert_eq!(conv("a [b]\nc\n"), conv("a [b]\nc"));
}

#[test]
fn pages_without_headings_join() {
    let a = "#-x\n[y](z)";
    let b = "---\nplain";
    assert_eq!(conv(&format!("{}\n{}", a, b)), format!("{}{}", conv(a), conv(b)));
}
