use vstd::prelude::*;
use vstd::string::StringExecFns;
use crate::text::str_eq;
use crate::urlenc::{url_encode, url_encode_str};

verus! {

/// One stored page: its id, its name, its wiki markup and the HTML made from it.
pub struct PageData {
    pub id: u32,
    pub name: String,
    pub wtml: String,
    pub html: String,
}

/// The values of the page-editing form.
pub struct InputForm {
    pub page: String,
    pub wtml: String,
    pub btn: String,
    pub btn_label: String,
}

/// What the body of a shown page is: the editing form of a page that does
/// not exist yet, or the stored HTML of one that does.
pub enum PageBody {
    Form(InputForm),
    Html(String),
}

/// What a submitted form asks for, by the name of its button.
#[derive(PartialEq, Eq, Structural)]
pub enum PostAction {
    Go,
    Insert,
    Update,
    Edit,
}

/// The name of the page shown when the path names none.
pub open spec fn default_page_name() -> Seq<char> {
    "\u{3053}\u{3093}\u{306b}\u{3061}\u{306f}"@
}

/// The label of the button that stores a new page.
pub open spec fn insert_label() -> Seq<char> {
    "\u{767b}\u{9332}"@
}

/// The label of the button that stores a changed page.
pub open spec fn update_label() -> Seq<char> {
    "\u{66f4}\u{65b0}"@
}

/// The name of the cookie that carries the session id.
pub open spec fn session_cookie_name() -> Seq<char> {
    "session_id"@
}

/// The names and labels that the pages use: the default page is
/// `こんにちは`, the button of a new page reads `登録`, that of a stored page
/// `更新`, and the session cookie is `session_id`.
pub proof fn law_page_names_and_labels()
    ensures
        default_page_name() == seq!['\u{3053}', '\u{3093}', '\u{306b}', '\u{3061}', '\u{306f}'],
        insert_label() == seq!['\u{767b}', '\u{9332}'],
        update_label() == seq!['\u{66f4}', '\u{65b0}'],
        session_cookie_name() == seq!['s', 'e', 's', 's', 'i', 'o', 'n', '_', 'i', 'd'],
{
    reveal_strlit("\u{3053}\u{3093}\u{306b}\u{3061}\u{306f}");
    reveal_strlit("\u{767b}\u{9332}");
    reveal_strlit("\u{66f4}\u{65b0}");
    reveal_strlit("session_id");
    assert(default_page_name() =~= seq!['\u{3053}', '\u{3093}', '\u{306b}', '\u{3061}', '\u{306f}']);
    assert(insert_label() =~= seq!['\u{767b}', '\u{9332}']);
    assert(update_label() =~= seq!['\u{66f4}', '\u{65b0}']);
    assert(session_cookie_name() =~= seq!['s', 'e', 's', 's', 'i', 'o', 'n', '_', 'i', 'd']);
}

/// `f` is the empty form for creating the page `page`.
pub open spec fn is_new_page_form(f: InputForm, page: Seq<char>) -> bool {
    &&& f.page@ == page
    &&& f.wtml@ == "wtml"@
    &&& f.btn@ == "insert"@
    &&& f.btn_label@ == insert_label()
}

/// The page name in the request path, or the default page when it is empty.
pub fn page_name_or_default(tail: String) -> (r: String)
    ensures
        r@ == if tail@.len() == 0 {
            default_page_name()
        } else {
            tail@
        },
{
    if tail.as_str().is_empty() {
        String::from_str("\u{3053}\u{3093}\u{306b}\u{3061}\u{306f}")
    } else {
        tail
    }
}

/// The HTML of the side menu: that of the first row found, or nothing.
pub fn side_menu_html(rows: &Vec<PageData>) -> (r: String)
    ensures
        r@ == if rows@.len() > 0 {
            rows@[0].html@
        } else {
            Seq::<char>::empty()
        },
{
    if rows.len() > 0 {
        rows[0].html.clone()
    } else {
        String::new()
    }
}

fn new_page_form(page: &String) -> (f: InputForm)
    ensures
        is_new_page_form(f, page@),
{
    InputForm {
        page: page.clone(),
        wtml: String::from_str("wtml"),
        btn: String::from_str("insert"),
        btn_label: String::from_str("\u{767b}\u{9332}"),
    }
}

/// The body of the page `page`, given the rows stored under its name.
pub fn page_body(page: &String, rows: &Vec<PageData>) -> (r: PageBody)
    ensures
        rows@.len() == 0 ==> (r matches PageBody::Form(f) && is_new_page_form(f, page@)),
        rows@.len() > 0 ==> (r matches PageBody::Html(h) && h@ == rows@[0].html@),
{
    if rows.len() == 0 {
        PageBody::Form(new_page_form(page))
    } else {
        PageBody::Html(rows[0].html.clone())
    }
}

/// The form for editing the page `page`, given the rows stored under its
/// name: empty for a new page, filled with the stored markup otherwise.
pub fn edit_form(page: &String, rows: &Vec<PageData>) -> (f: InputForm)
    ensures
        rows@.len() == 0 ==> is_new_page_form(f, page@),
        rows@.len() > 0 ==> {
            &&& f.page@ == rows@[0].name@
            &&& f.wtml@ == rows@[0].wtml@
            &&& f.btn@ == "update"@
            &&& f.btn_label@ == update_label()
        },
{
    if rows.len() == 0 {
        new_page_form(page)
    } else {
        InputForm {
            page: rows[0].name.clone(),
            wtml: rows[0].wtml.clone(),
            btn: String::from_str("update"),
            btn_label: String::from_str("\u{66f4}\u{65b0}"),
        }
    }
}

/// What the button named `btn` asks for.
pub fn post_action(btn: &str) -> (r: PostAction)
    ensures
        r == if btn@ == "go"@ {
            PostAction::Go
        } else if btn@ == "insert"@ {
            PostAction::Insert
        } else if btn@ == "update"@ {
            PostAction::Update
        } else {
            PostAction::Edit
        },
{
    if str_eq(btn, "go") {
        PostAction::Go
    } else if str_eq(btn, "insert") {
        PostAction::Insert
    } else if str_eq(btn, "update") {
        PostAction::Update
    } else {
        PostAction::Edit
    }
}

/// The relative address of the page `page`: `./` and its percent-encoded name.
pub fn redirect_location(page: &str) -> (r: String)
    ensures
        r@ == "./"@ + url_encode(page@),
{
    let mut r = String::from_str("./");
    let enc = url_encode_str(page);
    r.append(enc.as_str());
    r
}

/// The value of the first cookie named `name` among `cookies` (name, value).
pub open spec fn first_cookie(cookies: Seq<(String, String)>, name: Seq<char>) -> Option<Seq<char>>
    decreases cookies.len(),
{
    if cookies.len() == 0 {
        None
    } else if cookies[0].0@ == name {
        Some(cookies[0].1@)
    } else {
        first_cookie(cookies.drop_first(), name)
    }
}

/// The session id is the value of the first cookie whose name is
/// `session_id`, and there is none when no cookie has that name.
pub proof fn law_session_cookie(cookies: Seq<(String, String)>, j: int)
    ensures
        (0 <= j < cookies.len() && cookies[j].0@ == seq!['s', 'e', 's', 's', 'i', 'o', 'n', '_', 'i', 'd']
            && forall|i: int|
            0 <= i < j ==> #[trigger] cookies[i].0@ != seq![
                's',
                'e',
                's',
                's',
                'i',
                'o',
                'n',
                '_',
                'i',
                'd',
            ]) ==> first_cookie(cookies, session_cookie_name()) == Some(cookies[j].1@),
        (forall|i: int|
            0 <= i < cookies.len() ==> #[trigger] cookies[i].0@ != seq![
                's',
                'e',
                's',
                's',
                'i',
                'o',
                'n',
                '_',
                'i',
                'd',
            ]) ==> first_cookie(cookies, session_cookie_name()) is None,
    decreases cookies.len(),
{
    reveal_strlit("session_id");
    let name = seq!['s', 'e', 's', 's', 'i', 'o', 'n', '_', 'i', 'd'];
    assert(session_cookie_name() =~= name);
    if cookies.len() > 0 {
        law_session_cookie(cookies.drop_first(), j - 1);
        if 0 < j < cookies.len() {
            assert(cookies.drop_first()[j - 1] == cookies[j]);
            if forall|i: int| 0 <= i < j ==> #[trigger] cookies[i].0@ != name {
                assert(cookies[0].0@ != name);
                assert forall|i: int| 0 <= i < j - 1 implies #[trigger] cookies.drop_first()[i].0@
                    != name by {
                    assert(cookies.drop_first()[i] == cookies[i + 1]);
                }
            }
        }
        if forall|i: int| 0 <= i < cookies.len() ==> #[trigger] cookies[i].0@ != name {
            assert(cookies[0].0@ != name);
            assert forall|i: int| 0 <= i < cookies.drop_first().len() implies #[trigger] cookies.drop_first()[i].0@
                != name by {
                assert(cookies.drop_first()[i] == cookies[i + 1]);
            }
        }
    }
}

/// The session id among the request's cookies, given as (name, value) pairs.
pub fn session_id_from_cookies(cookies: &Vec<(String, String)>) -> (r: Option<String>)
    ensures
        r matches Some(v) ==> first_cookie(cookies@, session_cookie_name()) == Some(v@),
        r is None ==> first_cookie(cookies@, session_cookie_name()) is None,
{
    let mut i: usize = 0;
    assert(cookies@.skip(0) =~= cookies@);
    while i < cookies.len()
        invariant
            i <= cookies@.len(),
            first_cookie(cookies@, session_cookie_name()) == first_cookie(
                cookies@.skip(i as int),
                session_cookie_name(),
            ),
        decreases cookies.len() - i,
    {
        assert(cookies@.skip(i as int)[0] == cookies@[i as int]);
        if str_eq(cookies[i].0.as_str(), "session_id") {
            return Some(cookies[i].1.clone());
        }
        assert(cookies@.skip(i as int).drop_first() =~= cookies@.skip(i + 1));
        i = i + 1;
    }
    None
}

} // verus!
