use zubolite::page::{
    edit_form, page_body, page_name_or_default, post_action, redirect_location,
    session_id_from_cookies, side_menu_html, PageBody, PageData, PostAction,
};

fn row(name: &str, wtml: &str, html: &str) -> PageData {
    PageData { id: 1, name: name.to_string(), wtml: wtml.to_string(), html: html.to_string() }
}

#[test]
fn default_page_name_for_empty_path() {
    assert_eq!(page_name_or_default(String::new()), "\u{3053}\u{3093}\u{306b}\u{3061}\u{306f}");
    assert_eq!(page_name_or_default("Top".to_string()), "Top");
}

#[test]
fn side_menu_from_first_row() {
    assert_eq!(side_menu_html(&vec![]), "");
    assert_eq!(side_menu_html(&vec![row("SideMenu", "w", "<p>m</p>"), row("x", "y", "z")]), "<p>m</p>");
}

#[test]
fn body_of_missing_page_is_form() {
    match page_body(&"New".to_string(), &vec![]) {
        PageBody::Form(f) => {
            assert_eq!(f.page, "New");
            assert_eq!(f.wtml, "wtml");
            assert_eq!(f.btn, "insert");
            assert_eq!(f.btn_label, "\u{767b}\u{9332}");
        }
        PageBody::Html(_) => panic!("expected a form"),
    }
    match page_body(&"Old".to_string(), &vec![row("Old", "w", "<b>h</b>")]) {
        PageBody::Html(h) => assert_eq!(h, "<b>h</b>"),
        PageBody::Form(_) => panic!("expected html"),
    }
}

#[test]
fn edit_form_for_existing_page() {
    let f = edit_form(&"Old".to_string(), &vec![row("Old", "#T", "h")]);
    assert_eq!(f.page, "Old");
    assert_eq!(f.wtml, "#T");
    assert_eq!(f.btn, "update");
    assert_eq!(f.btn_label, "\u{66f4}\u{65b0}");
    let g = edit_form(&"New".to_string(), &vec![]);
    assert_eq!(g.btn, "insert");
    assert_eq!(g.wtml, "wtml");
}

#[test]
fn post_actions_by_button() {
    assert!(post_action("go") == PostAction::Go);
    assert!(post_action("insert") == PostAction::Insert);
    assert!(post_action("update") == PostAction::Update);
    assert!(post_action("") == PostAction::Edit);
    assert!(post_action("Go") == PostAction::Edit);
}

#[test]
fn redirect_location_is_encoded() {
    assert_eq!(redirect_location("Top"), "./Top");
    assert_eq!(redirect_location("a b/c"), "./a%20b%2Fc");
    assert_eq!(redirect_location("\u{65e5}"), "./%E6%97%A5");
    assert_eq!(redirect_location("-._~"), "./-._~");
}

#[test]
fn session_id_is_first_matching_cookie() {
    let cookies = vec![
        ("other".to_string(), "1".to_string()),
        ("session_id".to_string(), "abc".to_string()),
        ("session_id".to_string(), "def".to_string()),
    ];
    assert_eq!(session_id_from_cookies(&cookies), Some("abc".to_string()));
    assert_eq!(session_id_from_cookies(&vec![]), None);
    assert_eq!(session_id_from_cookies(&vec![("session".to_string(), "x".to_string())]), None);
}
