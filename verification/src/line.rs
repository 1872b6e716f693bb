use vstd::prelude::*;
use vstd::string::StringExecFns;
use crate::links::{
    close_bracket, find_links, lemma_links_from_ordered, lemma_next_link_bounds, links,
    links_from, next_link, spans, spans_ordered,
};
use crate::text::{chars_of, copy_range, push_chars, string_of};
use crate::urlenc::{url_encode, url_encode_str};
use crate::urls::{
    is_white_space, last_close_paren, lemma_next_paren_bounds, next_paren, parens, parens_from,
    remove_first_url, run_end, url_in_chars, url_of, without_first_paren,
};

verus! {

/// The text between links number `i - 1` and `i` of `t` (`m` are its links):
/// piece 0 comes before the first link, the last piece after the last link.
pub open spec fn piece(t: Seq<char>, m: Seq<(int, int)>, i: int) -> Seq<char> {
    let lo = if i == 0 {
        0
    } else {
        m[i - 1].1
    };
    let hi = if i < m.len() {
        m[i].0
    } else {
        t.len() as int
    };
    t.subrange(lo, hi)
}

/// The label of link number `i`: what stands between its brackets.
pub open spec fn label(t: Seq<char>, m: Seq<(int, int)>, i: int) -> Seq<char> {
    t.subrange(m[i].0 + 1, m[i].1 - 1)
}

/// A piece asks for an image when, once its first address markup is taken
/// out, it ends with `!`.
pub open spec fn marks_image(s: Seq<char>) -> bool {
    let st = without_first_paren(s);
    st.len() > 0 && st.last() == '!'
}

/// The text that a piece itself contributes.
pub open spec fn piece_text(s: Seq<char>) -> Seq<char> {
    if marks_image(s) {
        s.drop_last()
    } else {
        without_first_paren(s)
    }
}

/// The HTML for a link labelled `lab`: an image when `img`, an anchor
/// otherwise. `url` is the address written after the link; an anchor without
/// one points at the page named by the label.
pub open spec fn link_html(lab: Seq<char>, img: bool, url: Option<Seq<char>>) -> Seq<char> {
    let u = match url {
        Some(u) => u,
        None => Seq::empty(),
    };
    if img {
        "<img src='"@ + u + "'"@ + " alt='"@ + lab + "'"@ + " />"@
    } else {
        "<a href='"@ + (if u.len() == 0 {
            "./"@ + url_encode(lab)
        } else {
            u
        }) + "'>"@ + lab + "</a>"@
    }
}

/// What piece number `i` of the line `t` turns into, with the link after it.
pub open spec fn segment(t: Seq<char>, i: int) -> Seq<char> {
    let m = links(t);
    let s = piece(t, m, i);
    let next = if i < m.len() {
        piece(t, m, i + 1)
    } else {
        Seq::empty()
    };
    piece_text(s) + if i < m.len() {
        link_html(label(t, m, i), marks_image(s), url_of(next))
    } else {
        Seq::empty()
    }
}

/// The first `n` pieces of `t`, each followed by its link written back as
/// `[label]`.
pub open spec fn reassembled(t: Seq<char>, m: Seq<(int, int)>, n: nat) -> Seq<char>
    decreases n,
{
    if n == 0 {
        Seq::empty()
    } else {
        reassembled(t, m, (n - 1) as nat) + piece(t, m, n - 1) + seq!['['] + label(t, m, n - 1)
            + seq![']']
    }
}

proof fn lemma_reassembled_prefix(t: Seq<char>, j: nat)
    requires
        1 <= j <= links(t).len(),
    ensures
        reassembled(t, links(t), j) == t.take(links(t)[j - 1].1),
    decreases j,
{
    let m = links(t);
    lemma_links_from_ordered(t, 0);
    let lo: int = if j == 1 {
        0
    } else {
        m[j - 2].1
    };
    if j > 1 {
        lemma_reassembled_prefix(t, (j - 1) as nat);
        assert(m[j - 2].1 <= m[j - 2 + 1].0);
    }
    assert(reassembled(t, m, (j - 1) as nat) =~= t.take(lo));
    let a = m[j - 1].0;
    let e = m[j - 1].1;
    assert(t[a] == '[' && t[e - 1] == ']');
    assert(t.take(lo) + t.subrange(lo, a) + seq!['['] + t.subrange(a + 1, e - 1) + seq![']']
        =~= t.take(e));
}

/// The pieces of a line and its links, the links written back as `[label]`,
/// give back the line: splitting a line at its links loses nothing.
pub proof fn law_links_reassemble_line(t: Seq<char>)
    ensures
        reassembled(t, links(t), links(t).len()) + piece(t, links(t), links(t).len() as int) == t,
{
    let m = links(t);
    let k = m.len();
    lemma_links_from_ordered(t, 0);
    if k == 0 {
        assert(reassembled(t, m, 0) + piece(t, m, 0) =~= t);
    } else {
        lemma_reassembled_prefix(t, k);
        assert(t.take(m[k - 1].1) + t.subrange(m[k - 1].1, t.len() as int) =~= t);
    }
}

/// A line with no `[`, no `(` and no `!` at its end holds no markup: its
/// HTML is the line itself.
pub proof fn law_plain_line_unchanged(t: Seq<char>)
    requires
        forall|i: int| 0 <= i < t.len() ==> #[trigger] t[i] != '[' && t[i] != '(',
        t.len() == 0 || t.last() != '!',
    ensures
        line_html(t) == t,
{
    lemma_next_link_bounds(t, 0);
    lemma_next_paren_bounds(t, 0);
    assert(next_link(t, 0) is None);
    assert(next_paren(t, 0) is None);
    let m = links(t);
    assert(m =~= Seq::<(int, int)>::empty());
    assert(piece(t, m, 0) =~= t);
    assert(without_first_paren(t) == t);
    assert(segment(t, 0) =~= t);
    assert(line_html_upto(t, 0) =~= Seq::<char>::empty());
    assert(line_html_upto(t, 1) =~= line_html_upto(t, 0) + segment(t, 0));
    assert(line_html_upto(t, 1) =~= t);
}

proof fn lemma_close_bracket_at(t: Seq<char>, j: int, e: int)
    requires
        0 <= j <= e < t.len(),
        t[e] == ']',
        forall|k: int| j <= k < e ==> #[trigger] t[k] != ']' && t[k] != '\n',
    ensures
        close_bracket(t, j) == Some(e),
    decreases e - j,
{
    if j < e {
        lemma_close_bracket_at(t, j + 1, e);
    }
}

/// The single link of `[lab]`, followed by `rest` that holds no `[`.
proof fn lemma_one_link(lab: Seq<char>, rest: Seq<char>)
    requires
        forall|k: int| 0 <= k < lab.len() ==> #[trigger] lab[k] != ']' && lab[k] != '\n',
        forall|k: int| 0 <= k < rest.len() ==> #[trigger] rest[k] != '[',
    ensures
        links(seq!['['] + lab + seq![']'] + rest) == seq![(0int, lab.len() as int + 2)],
{
    let t = seq!['['] + lab + seq![']'] + rest;
    let e: int = lab.len() as int + 1;
    assert forall|k: int| 1 <= k < e implies #[trigger] t[k] != ']' && t[k] != '\n' by {
        assert(t[k] == lab[k - 1]);
    }
    lemma_close_bracket_at(t, 1, e);
    assert(next_link(t, 0) == Some((0int, e + 1)));
    lemma_next_link_bounds(t, e + 1);
    if let Some((a, b)) = next_link(t, e + 1) {
        assert(t[a] == rest[a - e - 1]);
    }
    assert(links_from(t, e + 1) =~= Seq::<(int, int)>::empty());
    assert(links_from(t, 0) =~= seq![(0int, e + 1)]);
}

proof fn lemma_run_end_to_end(t: Seq<char>, p: int)
    requires
        0 <= p <= t.len(),
        forall|k: int| p <= k < t.len() ==> !is_white_space(#[trigger] t[k]),
    ensures
        run_end(t, p) == t.len(),
    decreases t.len() - p,
{
    if p < t.len() {
        lemma_run_end_to_end(t, p + 1);
    }
}

/// `(u)`, with `u` not empty and free of white space, is one address markup
/// that names `u`, and taking out the first address markup leaves nothing.
pub proof fn law_one_address_markup(u: Seq<char>)
    requires
        u.len() > 0,
        forall|k: int| 0 <= k < u.len() ==> !is_white_space(#[trigger] u[k]),
    ensures
        url_of(seq!['('] + u + seq![')']) == Some(u),
        without_first_paren(seq!['('] + u + seq![')']) == Seq::<char>::empty(),
{
    let t = seq!['('] + u + seq![')'];
    assert forall|k: int| 1 <= k < t.len() implies !is_white_space(#[trigger] t[k]) by {
        if k <= u.len() {
            assert(t[k] == u[k - 1]);
        }
    }
    lemma_run_end_to_end(t, 1);
    assert(t[t.len() - 1] == ')');
    assert(last_close_paren(t, 2, t.len() as int) == Some(t.len() - 1));
    assert(next_paren(t, 0) == Some((0int, t.len() as int)));
    assert(parens_from(t, t.len() as int) =~= Seq::<(int, int)>::empty());
    assert(parens(t) =~= seq![(0int, t.len() as int)]);
    assert(t.subrange(1, t.len() - 1) =~= u);
    assert(t.take(0) + t.skip(t.len() as int) =~= Seq::<char>::empty());
}

proof fn lemma_empty_piece()
    ensures
        without_first_paren(Seq::<char>::empty()) == Seq::<char>::empty(),
        !marks_image(Seq::<char>::empty()),
        url_of(Seq::<char>::empty()) is None,
{
    assert(parens(Seq::<char>::empty()) =~= Seq::<(int, int)>::empty());
}

/// A line that is only `[lab]` becomes a link to the page `lab`, whose name
/// is percent-encoded in the address, for every label `lab`.
pub proof fn law_page_link(lab: Seq<char>)
    requires
        forall|k: int| 0 <= k < lab.len() ==> #[trigger] lab[k] != ']' && lab[k] != '\n',
    ensures
        line_html(seq!['['] + lab + seq![']']) == "<a href='"@ + "./"@ + url_encode(lab) + "'>"@
            + lab + "</a>"@,
{
    let t = seq!['['] + lab + seq![']'];
    lemma_one_link(lab, Seq::empty());
    assert(t + Seq::<char>::empty() =~= t);
    let m = links(t);
    assert(piece(t, m, 0) =~= Seq::<char>::empty());
    assert(piece(t, m, 1) =~= Seq::<char>::empty());
    assert(label(t, m, 0) =~= lab);
    lemma_empty_piece();
    assert(segment(t, 1) =~= Seq::<char>::empty());
    assert(line_html_upto(t, 0) =~= Seq::<char>::empty());
    assert(line_html_upto(t, 1) =~= segment(t, 0));
    assert(line_html_upto(t, 2) =~= segment(t, 0) + segment(t, 1));
    assert(line_html(t) =~= "<a href='"@ + ("./"@ + url_encode(lab)) + "'>"@ + lab + "</a>"@);
}

/// The single link of `![lab]` followed by `rest` that holds no `[`.
proof fn lemma_one_link_after_bang(lab: Seq<char>, rest: Seq<char>)
    requires
        forall|k: int| 0 <= k < lab.len() ==> #[trigger] lab[k] != ']' && lab[k] != '\n',
        forall|k: int| 0 <= k < rest.len() ==> #[trigger] rest[k] != '[',
    ensures
        links(seq!['!'] + (seq!['['] + lab + seq![']'] + rest)) == seq![
            (1int, lab.len() as int + 3),
        ],
{
    let s = seq!['!'] + (seq!['['] + lab + seq![']'] + rest);
    let e: int = lab.len() as int + 2;
    assert forall|k: int| 2 <= k < e implies #[trigger] s[k] != ']' && s[k] != '\n' by {
        assert(s[k] == lab[k - 2]);
    }
    lemma_close_bracket_at(s, 2, e);
    assert(next_link(s, 1) == Some((1int, e + 1)));
    assert(next_link(s, 0) == Some((1int, e + 1)));
    lemma_next_link_bounds(s, e + 1);
    if let Some((a, b)) = next_link(s, e + 1) {
        assert(s[a] == rest[a - e - 1]);
    }
    assert(links_from(s, e + 1) =~= Seq::<(int, int)>::empty());
    assert(links_from(s, 0) =~= seq![(1int, e + 1)]);
}

proof fn lemma_address_free_of_brackets(u: Seq<char>)
    requires
        forall|k: int| 0 <= k < u.len() ==> #[trigger] u[k] != '[',
    ensures
        forall|k: int|
            0 <= k < (seq!['('] + u + seq![')']).len() ==> #[trigger] (seq!['('] + u + seq![')'])[k]
                != '[',
{
    let p = seq!['('] + u + seq![')'];
    assert forall|k: int| 0 <= k < p.len() implies #[trigger] p[k] != '[' by {
        if 1 <= k <= u.len() {
            assert(p[k] == u[k - 1]);
        }
    }
}

/// A line `[lab](u)` becomes a link to the address `u`, for every label
/// `lab` and every address `u` without white space.
pub proof fn law_address_link(lab: Seq<char>, u: Seq<char>)
    requires
        forall|k: int| 0 <= k < lab.len() ==> #[trigger] lab[k] != ']' && lab[k] != '\n',
        u.len() > 0,
        forall|k: int| 0 <= k < u.len() ==> !is_white_space(#[trigger] u[k]) && u[k] != '[',
    ensures
        line_html(seq!['['] + lab + seq![']'] + (seq!['('] + u + seq![')'])) == "<a href='"@ + u
            + "'>"@ + lab + "</a>"@,
{
    let p = seq!['('] + u + seq![')'];
    lemma_address_free_of_brackets(u);
    lemma_one_link(lab, p);
    law_one_address_markup(u);
    lemma_empty_piece();
    let t = seq!['['] + lab + seq![']'] + p;
    let m = links(t);
    assert(piece(t, m, 0) =~= Seq::<char>::empty());
    assert(piece(t, m, 1) =~= p);
    assert(label(t, m, 0) =~= lab);
    assert(segment(t, 1) =~= Seq::<char>::empty());
    assert(line_html_upto(t, 0) =~= Seq::<char>::empty());
    assert(line_html_upto(t, 1) =~= segment(t, 0));
    assert(line_html_upto(t, 2) =~= segment(t, 0) + segment(t, 1));
    assert(line_html(t) =~= "<a href='"@ + u + "'>"@ + lab + "</a>"@);
}

/// A line `![lab](u)` becomes an image with source `u` and text `lab`, for
/// every label `lab` and every address `u` without white space.
pub proof fn law_image_link(lab: Seq<char>, u: Seq<char>)
    requires
        forall|k: int| 0 <= k < lab.len() ==> #[trigger] lab[k] != ']' && lab[k] != '\n',
        u.len() > 0,
        forall|k: int| 0 <= k < u.len() ==> !is_white_space(#[trigger] u[k]) && u[k] != '[',
    ensures
        line_html(seq!['!'] + (seq!['['] + lab + seq![']'] + (seq!['('] + u + seq![')'])))
            == "<img src='"@ + u + "'"@ + " alt='"@ + lab + "'"@ + " />"@,
{
    let p = seq!['('] + u + seq![')'];
    lemma_address_free_of_brackets(u);
    lemma_one_link_after_bang(lab, p);
    law_one_address_markup(u);
    lemma_empty_piece();
    let s = seq!['!'] + (seq!['['] + lab + seq![']'] + p);
    let ms = links(s);
    let bang = seq!['!'];
    assert(piece(s, ms, 0) =~= bang);
    assert(piece(s, ms, 1) =~= p);
    assert(label(s, ms, 0) =~= lab);
    lemma_next_paren_bounds(bang, 0);
    assert(next_paren(bang, 0) is None);
    assert(without_first_paren(bang) == bang);
    assert(marks_image(bang));
    assert(piece_text(bang) =~= Seq::<char>::empty());
    assert(segment(s, 1) =~= Seq::<char>::empty());
    assert(line_html_upto(s, 0) =~= Seq::<char>::empty());
    assert(line_html_upto(s, 1) =~= segment(s, 0));
    assert(line_html_upto(s, 2) =~= segment(s, 0) + segment(s, 1));
    assert(line_html(s) =~= "<img src='"@ + u + "'"@ + " alt='"@ + lab + "'"@ + " />"@);
}

/// The HTML of the first `n` pieces of the line `t`.
pub open spec fn line_html_upto(t: Seq<char>, n: nat) -> Seq<char>
    decreases n,
{
    if n == 0 {
        Seq::empty()
    } else {
        line_html_upto(t, (n - 1) as nat) + segment(t, n - 1)
    }
}

/// The HTML of one line of wiki markup.
pub open spec fn line_html(t: Seq<char>) -> Seq<char> {
    line_html_upto(t, links(t).len() + 1)
}

fn push_link(
    html: &mut String,
    lab: &[char],
    img: bool,
    url: &Option<Vec<char>>,
)
    ensures
        final(html)@ == old(html)@ + link_html(
            lab@,
            img,
            match url {
                Some(u) => Some(u@),
                None => None,
            },
        ),
{
    let u: Vec<char> = match url {
        Some(u) => u.clone(),
        None => Vec::new(),
    };
    proof {
        assert(u@ == match url {
            Some(v) => v@,
            None => Seq::<char>::empty(),
        });
    }
    let ghost before = html@;
    if img {
        html.append("<img src='");
        push_chars(html, u.as_slice());
        html.append("'");
        html.append(" alt='");
        push_chars(html, lab);
        html.append("'");
        html.append(" />");
        assert(html@ =~= before + ("<img src='"@ + u@ + "'"@ + " alt='"@ + lab@ + "'"@
            + " />"@));
    } else {
        html.append("<a href='");
        let ghost mid = html@;
        if u.len() == 0 {
            html.append("./");
            let lab_s = string_of(lab);
            let enc = url_encode_str(lab_s.as_str());
            html.append(enc.as_str());
            assert(html@ =~= mid + ("./"@ + url_encode(lab@)));
        } else {
            push_chars(html, u.as_slice());
        }
        html.append("'>");
        push_chars(html, lab);
        html.append("</a>");
        assert(html@ =~= before + ("<a href='"@ + (if u@.len() == 0 {
            "./"@ + url_encode(lab@)
        } else {
            u@
        }) + "'>"@ + lab@ + "</a>"@));
    }
}

/// The bounds of piece number `i` of a line with `n` chars and links `m`.
fn piece_bounds(m: &[(usize, usize)], n: usize, i: usize, Ghost(t): Ghost<Seq<char>>) -> (r: (
    usize,
    usize,
))
    requires
        n == t.len(),
        spans(m@) == links(t),
        spans_ordered(t, links(t), 0),
        i <= m@.len(),
    ensures
        r.0 <= r.1 <= n,
        t.subrange(r.0 as int, r.1 as int) == piece(t, links(t), i as int),
{
    let ghost ms = links(t);
    let lo: usize = if i == 0 {
        0
    } else {
        assert(ms[i - 1] == (m@[i - 1].0 as int, m@[i - 1].1 as int));
        m[i - 1].1
    };
    let hi: usize = if i < m.len() {
        assert(ms[i as int] == (m@[i as int].0 as int, m@[i as int].1 as int));
        m[i].0
    } else {
        n
    };
    assert(lo <= hi) by {
        if i > 0 && i < m.len() {
            assert(ms[i - 1].1 <= ms[i - 1 + 1].0);
        }
    }
    (lo, hi)
}

/// Appends to `html` what piece number `i` of the line `cs` turns into.
fn push_segment(html: &mut String, cs: &[char], m: &[(usize, usize)], i: usize)
    requires
        spans(m@) == links(cs@),
        spans_ordered(cs@, links(cs@), 0),
        i <= m@.len(),
    ensures
        final(html)@ == old(html)@ + segment(cs@, i as int),
{
    let ghost t = cs@;
    let ghost ms = links(t);
    let k = m.len();
    let (lo, hi) = piece_bounds(m, cs.len(), i, Ghost(t));
    let s = copy_range(cs, lo, hi);
    let st = remove_first_url(s.as_slice());
    let img = st.len() > 0 && st[st.len() - 1] == '!';
    if img {
        push_chars(html, &s.as_slice()[0..s.len() - 1]);
        assert(s@.subrange(0, s@.len() - 1) =~= s@.drop_last());
    } else {
        push_chars(html, st.as_slice());
    }
    let ghost mid = html@;
    if i < k {
        let (nlo, nhi) = piece_bounds(m, cs.len(), i + 1, Ghost(t));
        let next = copy_range(cs, nlo, nhi);
        let url = url_in_chars(next.as_slice());
        assert(ms[i as int] == (m@[i as int].0 as int, m@[i as int].1 as int));
        let lab = copy_range(cs, m[i].0 + 1, m[i].1 - 1);
        push_link(html, lab.as_slice(), img, &url);
    } else {
        assert(html@ =~= mid + Seq::<char>::empty());
    }
}

/// Converts one line of wiki markup into HTML: each `[label]` becomes a link
/// to the page `label`, or to the address in the `(address)` that follows
/// it; a `!` just before it makes it an image.
pub fn get_line_html(text: &str) -> (html: String)
    ensures
        html@ == line_html(text@),
{
    let cs = chars_of(text);
    line_html_of_chars(cs.as_slice())
}

/// The HTML of the line of wiki markup whose chars are `cs`.
pub fn line_html_of_chars(cs: &[char]) -> (html: String)
    ensures
        html@ == line_html(cs@),
{
    let m = find_links(cs);
    proof {
        lemma_links_from_ordered(cs@, 0);
    }
    let k = m.len();
    let mut html = String::new();
    let mut i: usize = 0;
    loop
        invariant
            spans(m@) == links(cs@),
            spans_ordered(cs@, links(cs@), 0),
            k == m@.len(),
            i <= k,
            html@ == line_html_upto(cs@, i as nat),
        decreases k - i,
    {
        push_segment(&mut html, cs, m.as_slice(), i);
        if i == k {
            return html;
        }
        i = i + 1;
    }
}

} // verus!
