use vstd::prelude::*;
use vstd::string::StringExecFns;
use crate::escape::{esc_seq, push_escaped};
use crate::line::{line_html, line_html_of_chars};
use crate::lines::{
    law_crlf_same_lines_as_lf, law_final_line_feed_adds_no_line, law_lines_of_join,
    lemma_single_line, line_spans, lines_of,
};
use crate::text::{chars_of, copy_range, push_chars};

verus! {

/// The char for the decimal digit `d`.
pub open spec fn digit_char(d: nat) -> char {
    (48 + d) as char
}

/// `n` written in decimal.
pub open spec fn decimal(n: nat) -> Seq<char>
    decreases n,
{
    if n < 10 {
        seq![digit_char(n)]
    } else {
        decimal(n / 10).push(digit_char(n % 10))
    }
}

/// `n` written in decimal.
pub fn decimal_chars(n: usize) -> (r: Vec<char>)
    ensures
        r@ == decimal(n as nat),
    decreases n,
{
    let d = (n % 10) as u8;
    let c = (48u8 + d) as char;
    if n < 10 {
        let mut r = Vec::new();
        r.push(c);
        r
    } else {
        let mut r = decimal_chars(n / 10);
        r.push(c);
        r
    }
}

/// Whether `l` begins with `p`.
pub open spec fn starts_with(l: Seq<char>, p: Seq<char>) -> bool {
    p.len() <= l.len() && l.take(p.len() as int) == p
}

/// `l` with every leading repetition of `p` taken off.
pub open spec fn trim_prefix(l: Seq<char>, p: Seq<char>) -> Seq<char>
    decreases l.len(),
{
    if p.len() > 0 && starts_with(l, p) {
        trim_prefix(l.skip(p.len() as int), p)
    } else {
        l
    }
}

/// The start of the table of contents.
pub open spec fn toc_head() -> Seq<char> {
    "<div class='table_of_contents'>\n"@
}

/// The entry of the table of contents for heading number `n` with text `t`.
pub open spec fn toc_entry(indent: Seq<char>, n: nat, t: Seq<char>) -> Seq<char> {
    indent + "<a href='row"@ + decimal(n) + "'>"@ + t + "</a><br/>\n"@
}

/// What one line adds to (table of contents, body, number of headings).
pub open spec fn wtml_step(st: (Seq<char>, Seq<char>, nat), l: Seq<char>) -> (
    Seq<char>,
    Seq<char>,
    nat,
) {
    let toc = st.0;
    let html = st.1;
    let n = st.2;
    let br = "<br/>\n"@;
    if starts_with(l, "###-"@) {
        (toc, html + "<h4>"@ + esc_seq(trim_prefix(l, "###-"@)) + "</h4>\n"@ + br, n)
    } else if starts_with(l, "###"@) {
        let t = esc_seq(trim_prefix(l, "###"@));
        (
            toc + toc_entry("\u{3000}\u{3000}\u{3000}\u{3000}\u{3000}"@, n + 1, t),
            html + "<h4 id='row"@ + decimal(n + 1) + "'>"@ + t + "</h4>\n"@ + br,
            n + 1,
        )
    } else if starts_with(l, "##-"@) {
        (toc, html + "<h3>"@ + esc_seq(trim_prefix(l, "##-"@)) + "</h3>\n"@ + br, n)
    } else if starts_with(l, "##"@) {
        let t = esc_seq(trim_prefix(l, "##"@));
        (
            toc + toc_entry("\u{3000}\u{3000}\u{3000}"@, n + 1, t),
            html + "<h3 id='row"@ + decimal(n + 1) + "'>"@ + t + "</32>\n"@ + br,
            n + 1,
        )
    } else if starts_with(l, "#-"@) {
        (toc, html + "<h2>"@ + esc_seq(trim_prefix(l, "#-"@)) + "</h2>\n"@ + br, n)
    } else if starts_with(l, "#"@) {
        let t = esc_seq(trim_prefix(l, "#"@));
        (
            toc + toc_entry("\u{3000}"@, n + 1, t),
            html + "<h2 id='row"@ + decimal(n + 1) + "'>"@ + t + "</h2>\n"@ + br,
            n + 1,
        )
    } else if starts_with(l, "---"@) {
        (toc, html + "<hr />"@ + br, n)
    } else {
        (toc, html + line_html(l) + br, n)
    }
}

/// (table of contents, body, number of headings) after the lines `ls`.
pub open spec fn wtml_fold(ls: Seq<Seq<char>>) -> (Seq<char>, Seq<char>, nat)
    decreases ls.len(),
{
    if ls.len() == 0 {
        (toc_head(), Seq::empty(), 0)
    } else {
        wtml_step(wtml_fold(ls.drop_last()), ls.last())
    }
}

/// The page HTML for the wiki markup `w`.
pub open spec fn wtml_html(w: Seq<char>) -> Seq<char> {
    let st = wtml_fold(lines_of(w));
    if st.2 > 0 {
        st.0 + "</div>"@ + st.1
    } else {
        st.1
    }
}

/// A line that becomes a numbered heading listed in the table of contents:
/// it starts with `#`, and not with `#-`, `##-` or `###-`.
pub open spec fn is_numbered_heading(l: Seq<char>) -> bool {
    &&& starts_with(l, "#"@)
    &&& !starts_with(l, "#-"@)
    &&& !starts_with(l, "##-"@)
    &&& !starts_with(l, "###-"@)
}

/// The number of numbered headings among the lines `ls`.
pub open spec fn numbered_count(ls: Seq<Seq<char>>) -> nat
    decreases ls.len(),
{
    if ls.len() == 0 {
        0
    } else {
        numbered_count(ls.drop_last()) + if is_numbered_heading(ls.last()) {
            1nat
        } else {
            0nat
        }
    }
}

proof fn lemma_step_counts(st: (Seq<char>, Seq<char>, nat), l: Seq<char>)
    ensures
        wtml_step(st, l).2 == st.2 + if is_numbered_heading(l) {
            1nat
        } else {
            0nat
        },
{
    reveal_strlit("#");
    reveal_strlit("#-");
    reveal_strlit("##");
    reveal_strlit("##-");
    reveal_strlit("###");
    reveal_strlit("###-");
    reveal_strlit("---");
    if starts_with(l, "###"@) {
        assert(l.take(3) == "###"@);
        assert(l.take(3)[0] == '#' && l.take(3)[1] == '#' && l.take(3)[2] == '#');
        assert(l[0] == '#' && l[1] == '#' && l[2] == '#');
        assert(l.take(1) =~= "#"@);
        if !starts_with(l, "###-"@) {
            assert(!starts_with(l, "#-"@)) by {
                assert(l.take(2)[1] == '#');
            }
            assert(!starts_with(l, "##-"@)) by {
                assert(l.take(3)[2] == '#');
            }
        }
    } else if starts_with(l, "##"@) {
        assert(l.take(1) =~= "#"@);
        assert(!starts_with(l, "#-"@)) by {
            assert(l.take(2)[1] == '#');
        }
        assert(!starts_with(l, "###-"@)) by {
            if starts_with(l, "###-"@) {
                assert(l.take(3) =~= "###"@);
            }
        }
    } else if starts_with(l, "#"@) {
        assert(!starts_with(l, "##-"@)) by {
            if starts_with(l, "##-"@) {
                assert(l.take(2) =~= "##"@);
            }
        }
        assert(!starts_with(l, "###-"@)) by {
            if starts_with(l, "###-"@) {
                assert(l.take(3) =~= "###"@);
            }
        }
    } else {
        assert(!starts_with(l, "#-"@) && !starts_with(l, "##-"@) && !starts_with(l, "###-"@)) by {
            if starts_with(l, "#-"@) {
                assert(l.take(1) =~= "#"@);
            }
            if starts_with(l, "##-"@) {
                assert(l.take(1) =~= "#"@);
            }
            if starts_with(l, "###-"@) {
                assert(l.take(1) =~= "#"@);
            }
        }
    }
}

proof fn lemma_fold_counts(ls: Seq<Seq<char>>)
    ensures
        wtml_fold(ls).2 == numbered_count(ls),
    decreases ls.len(),
{
    if ls.len() > 0 {
        lemma_fold_counts(ls.drop_last());
        lemma_step_counts(wtml_fold(ls.drop_last()), ls.last());
    }
}

/// Headings are numbered one after the other, one number for each numbered
/// heading line; the table of contents is put before the body exactly when
/// the page has such a line, and is left out otherwise.
pub proof fn law_table_of_contents_only_with_headings(w: Seq<char>)
    ensures
        wtml_fold(lines_of(w)).2 == numbered_count(lines_of(w)),
        numbered_count(lines_of(w)) > 0 ==> wtml_html(w) == wtml_fold(lines_of(w)).0 + "</div>"@
            + wtml_fold(lines_of(w)).1,
        numbered_count(lines_of(w)) == 0 ==> wtml_html(w) == wtml_fold(lines_of(w)).1,
{
    lemma_fold_counts(lines_of(w));
}

proof fn lemma_step_plain(st: (Seq<char>, Seq<char>, nat), l: Seq<char>)
    requires
        !is_numbered_heading(l),
    ensures
        wtml_step(st, l) == (st.0, st.1 + wtml_step((toc_head(), Seq::empty(), 0), l).1, st.2),
{
    lemma_step_counts(st, l);
    lemma_step_counts((toc_head(), Seq::empty(), 0), l);
    let r = wtml_step(st, l);
    let b = wtml_step((toc_head(), Seq::<char>::empty(), 0), l);
    assert(r.1 =~= st.1 + b.1);
}

proof fn lemma_fold_append(ls1: Seq<Seq<char>>, ls2: Seq<Seq<char>>)
    requires
        numbered_count(ls2) == 0,
    ensures
        wtml_fold(ls1 + ls2) == (
            wtml_fold(ls1).0,
            wtml_fold(ls1).1 + wtml_fold(ls2).1,
            wtml_fold(ls1).2,
        ),
        wtml_fold(ls2).0 == toc_head(),
        wtml_fold(ls2).2 == 0,
    decreases ls2.len(),
{
    if ls2.len() == 0 {
        assert(ls1 + ls2 =~= ls1);
        assert(wtml_fold(ls1).1 + wtml_fold(ls2).1 =~= wtml_fold(ls1).1);
    } else {
        let l = ls2.last();
        assert(!is_numbered_heading(l));
        lemma_fold_append(ls1, ls2.drop_last());
        assert((ls1 + ls2).drop_last() =~= ls1 + ls2.drop_last());
        assert((ls1 + ls2).last() == l);
        let f = wtml_fold(ls1 + ls2.drop_last());
        let g = wtml_fold(ls2.drop_last());
        lemma_step_plain(f, l);
        lemma_step_plain(g, l);
        assert(wtml_fold(ls1 + ls2).1 =~= wtml_fold(ls1).1 + wtml_fold(ls2).1);
    }
}

/// Lines ended by a carriage return and line feed give the same HTML as
/// lines ended by a line feed alone.
pub proof fn law_crlf_same_html_as_lf(a: Seq<char>, b: Seq<char>)
    requires
        a.len() == 0 || a.last() != '\r',
    ensures
        wtml_html(a + seq!['\r', '\n'] + b) == wtml_html(a + seq!['\n'] + b),
{
    law_crlf_same_lines_as_lf(a, b);
}

/// A final line feed does not change the HTML of a page that does not end
/// with a line end already.
pub proof fn law_final_line_feed_same_html(a: Seq<char>)
    requires
        a.len() > 0,
        a.last() != '\n',
        a.last() != '\r',
    ensures
        wtml_html(a.push('\n')) == wtml_html(a),
{
    law_final_line_feed_adds_no_line(a);
}

/// Two pages without numbered headings, joined by a line feed, give the HTML
/// of the first followed by the HTML of the second.
pub proof fn law_join_pages_without_headings(a: Seq<char>, b: Seq<char>)
    requires
        a.len() > 0,
        a.last() != '\n',
        a.last() != '\r',
        numbered_count(lines_of(a)) == 0,
        numbered_count(lines_of(b)) == 0,
    ensures
        wtml_html(a + seq!['\n'] + b) == wtml_html(a) + wtml_html(b),
{
    law_lines_of_join(a, b);
    lemma_fold_counts(lines_of(a));
    lemma_fold_counts(lines_of(b));
    lemma_fold_append(lines_of(a), lines_of(b));
}

/// Whether `x` occurs in `s`.
pub open spec fn contains(s: Seq<char>, x: Seq<char>) -> bool {
    exists|i: int| 0 <= i && i + x.len() <= s.len() && #[trigger] s.subrange(i, i + x.len()) == x
}

/// The text of a numbered heading line: the line without its leading marks.
pub open spec fn heading_text(l: Seq<char>) -> Seq<char> {
    if starts_with(l, "###"@) {
        trim_prefix(l, "###"@)
    } else if starts_with(l, "##"@) {
        trim_prefix(l, "##"@)
    } else {
        trim_prefix(l, "#"@)
    }
}

proof fn lemma_contains_inside(a: Seq<char>, m: Seq<char>, b: Seq<char>, x: Seq<char>)
    requires
        contains(m, x),
    ensures
        contains(a + m + b, x),
{
    let i = choose|i: int| 0 <= i && i + x.len() <= m.len() && #[trigger] m.subrange(i, i + x.len()) == x;
    let s = a + m + b;
    assert(s.subrange(a.len() + i, a.len() + i + x.len()) =~= m.subrange(i, i + x.len()));
}

proof fn lemma_contains_prefix(p: Seq<char>, s: Seq<char>, x: Seq<char>)
    requires
        contains(p, x),
        p.len() <= s.len(),
        s.take(p.len() as int) == p,
    ensures
        contains(s, x),
{
    let i = choose|i: int| 0 <= i && i + x.len() <= p.len() && #[trigger] p.subrange(i, i + x.len()) == x;
    assert(s.subrange(i, i + x.len()) =~= p.subrange(i, i + x.len()));
}

proof fn lemma_step_extends(st: (Seq<char>, Seq<char>, nat), l: Seq<char>)
    ensures
        st.0.len() <= wtml_step(st, l).0.len(),
        wtml_step(st, l).0.take(st.0.len() as int) == st.0,
        st.1.len() <= wtml_step(st, l).1.len(),
        wtml_step(st, l).1.take(st.1.len() as int) == st.1,
        st.2 <= wtml_step(st, l).2,
{
    let r = wtml_step(st, l);
    assert(r.0.take(st.0.len() as int) =~= st.0);
    assert(r.1.take(st.1.len() as int) =~= st.1);
}

proof fn lemma_fold_prefix(ls: Seq<Seq<char>>, m: int)
    requires
        0 <= m <= ls.len(),
    ensures
        wtml_fold(ls.take(m)).0.len() <= wtml_fold(ls).0.len(),
        wtml_fold(ls).0.take(wtml_fold(ls.take(m)).0.len() as int) == wtml_fold(ls.take(m)).0,
        wtml_fold(ls.take(m)).1.len() <= wtml_fold(ls).1.len(),
        wtml_fold(ls).1.take(wtml_fold(ls.take(m)).1.len() as int) == wtml_fold(ls.take(m)).1,
        wtml_fold(ls.take(m)).2 <= wtml_fold(ls).2,
    decreases ls.len() - m,
{
    if m == ls.len() {
        assert(ls.take(m) =~= ls);
    } else {
        lemma_fold_prefix(ls, m + 1);
        let a = wtml_fold(ls.take(m));
        let b = wtml_fold(ls.take(m + 1));
        let c = wtml_fold(ls);
        assert(ls.take(m + 1).drop_last() =~= ls.take(m));
        assert(ls.take(m + 1).last() == ls[m]);
        assert(b == wtml_step(a, ls[m]));
        lemma_step_extends(a, ls[m]);
        assert(c.0.take(a.0.len() as int) =~= b.0.take(a.0.len() as int));
        assert(c.1.take(a.1.len() as int) =~= b.1.take(a.1.len() as int));
    }
}

proof fn lemma_numbered_step(st: (Seq<char>, Seq<char>, nat), l: Seq<char>)
    requires
        is_numbered_heading(l),
    ensures
        wtml_step(st, l).2 == st.2 + 1,
        contains(
            wtml_step(st, l).0,
            "<a href='row"@ + decimal(st.2 + 1) + "'>"@ + esc_seq(heading_text(l)) + "</a>"@,
        ),
        contains(
            wtml_step(st, l).1,
            "id='row"@ + decimal(st.2 + 1) + "'>"@ + esc_seq(heading_text(l)),
        ),
{
    lemma_step_counts(st, l);
    reveal_strlit("<h4 id='row");
    reveal_strlit("<h3 id='row");
    reveal_strlit("<h2 id='row");
    reveal_strlit("id='row");
    let r = wtml_step(st, l);
    let n1 = st.2 + 1;
    let t = esc_seq(heading_text(l));
    let x = "<a href='row"@ + decimal(n1) + "'>"@ + t + "</a>"@;
    let y = "id='row"@ + decimal(n1) + "'>"@ + t;
    let (indent, open, close): (Seq<char>, Seq<char>, Seq<char>) = if starts_with(l, "###"@) {
        ("\u{3000}\u{3000}\u{3000}\u{3000}\u{3000}"@, "<h4 "@, "</h4>\n"@)
    } else if starts_with(l, "##"@) {
        ("\u{3000}\u{3000}\u{3000}"@, "<h3 "@, "</32>\n"@)
    } else {
        ("\u{3000}"@, "<h2 "@, "</h2>\n"@)
    };
    reveal_strlit("<h4 ");
    reveal_strlit("<h3 ");
    reveal_strlit("<h2 ");
    reveal_strlit("</a><br/>\n");
    reveal_strlit("</a>");
    reveal_strlit("<br/>\n");
    assert("</a><br/>\n"@ =~= "</a>"@ + "<br/>\n"@);
    assert(r.0 =~= st.0 + indent + x + "<br/>\n"@);
    assert(x.subrange(0int, 0int + x.len()) =~= x);
    assert(contains(x, x));
    lemma_contains_inside(st.0 + indent, x, "<br/>\n"@, x);
    assert(r.1 =~= st.1 + open + y + (close + "<br/>\n"@));
    assert(y.subrange(0int, 0int + y.len()) =~= y);
    assert(contains(y, y));
    lemma_contains_inside(st.1 + open, y, close + "<br/>\n"@, y);
}

/// Numbered headings are numbered by their position: when line `j` of the
/// page `w` is its `k`-th numbered heading, with text `t`, the HTML holds the
/// contents entry `<a href='rowk'>t</a>` and a heading with id `rowk`, `t`
/// escaped, for every kind of numbered heading and every `k`.
pub proof fn law_headings_numbered_by_position(w: Seq<char>, j: int)
    requires
        0 <= j < lines_of(w).len(),
        is_numbered_heading(lines_of(w)[j]),
    ensures
        contains(
            wtml_html(w),
            "<a href='row"@ + decimal(numbered_count(lines_of(w).take(j + 1))) + "'>"@ + esc_seq(
                heading_text(lines_of(w)[j]),
            ) + "</a>"@,
        ),
        contains(
            wtml_html(w),
            "id='row"@ + decimal(numbered_count(lines_of(w).take(j + 1))) + "'>"@ + esc_seq(
                heading_text(lines_of(w)[j]),
            ),
        ),
{
    let ls = lines_of(w);
    let l = ls[j];
    let k = numbered_count(ls.take(j + 1));
    let t = esc_seq(heading_text(l));
    let x = "<a href='row"@ + decimal(k) + "'>"@ + t + "</a>"@;
    let y = "id='row"@ + decimal(k) + "'>"@ + t;
    let before = wtml_fold(ls.take(j));
    let after = wtml_fold(ls.take(j + 1));
    assert(ls.take(j + 1).drop_last() =~= ls.take(j));
    assert(ls.take(j + 1).last() == l);
    lemma_fold_counts(ls.take(j + 1));
    lemma_fold_counts(ls.take(j));
    lemma_numbered_step(before, l);
    assert(after.2 == before.2 + 1);
    assert(k == before.2 + 1);
    lemma_fold_prefix(ls, j + 1);
    let all = wtml_fold(ls);
    lemma_contains_prefix(after.0, all.0, x);
    lemma_contains_prefix(after.1, all.1, y);
    assert(all.2 > 0);
    lemma_contains_inside(Seq::<char>::empty(), all.0, "</div>"@ + all.1, x);
    assert(Seq::<char>::empty() + all.0 + ("</div>"@ + all.1) =~= wtml_html(w));
    lemma_contains_inside(all.0 + "</div>"@, all.1, Seq::<char>::empty(), y);
    assert(all.0 + "</div>"@ + all.1 + Seq::<char>::empty() =~= wtml_html(w));
}

proof fn lemma_starts_with_iff(l: Seq<char>, p: Seq<char>)
    ensures
        starts_with(l, p) <==> (p.len() <= l.len() && forall|i: int|
            0 <= i < p.len() ==> #[trigger] l[i] == p[i]),
{
    if p.len() <= l.len() {
        if forall|i: int| 0 <= i < p.len() ==> #[trigger] l[i] == p[i] {
            assert(l.take(p.len() as int) =~= p);
        }
        if starts_with(l, p) {
            assert forall|i: int| 0 <= i < p.len() implies #[trigger] l[i] == p[i] by {
                assert(l.take(p.len() as int)[i] == l[i]);
            }
        }
    }
}

proof fn lemma_marks(l: Seq<char>)
    ensures
        starts_with(l, "###-"@) <==> (l.len() >= 4 && l[0] == '#' && l[1] == '#' && l[2] == '#'
            && l[3] == '-'),
        starts_with(l, "###"@) <==> (l.len() >= 3 && l[0] == '#' && l[1] == '#' && l[2] == '#'),
        starts_with(l, "##-"@) <==> (l.len() >= 3 && l[0] == '#' && l[1] == '#' && l[2] == '-'),
        starts_with(l, "##"@) <==> (l.len() >= 2 && l[0] == '#' && l[1] == '#'),
        starts_with(l, "#-"@) <==> (l.len() >= 2 && l[0] == '#' && l[1] == '-'),
        starts_with(l, "#"@) <==> (l.len() >= 1 && l[0] == '#'),
        starts_with(l, "---"@) <==> (l.len() >= 3 && l[0] == '-' && l[1] == '-' && l[2] == '-'),
{
    reveal_strlit("###-");
    reveal_strlit("###");
    reveal_strlit("##-");
    reveal_strlit("##");
    reveal_strlit("#-");
    reveal_strlit("#");
    reveal_strlit("---");
    lemma_starts_with_iff(l, "###-"@);
    lemma_starts_with_iff(l, "###"@);
    lemma_starts_with_iff(l, "##-"@);
    lemma_starts_with_iff(l, "##"@);
    lemma_starts_with_iff(l, "#-"@);
    lemma_starts_with_iff(l, "#"@);
    lemma_starts_with_iff(l, "---"@);
}

/// The HTML of a page of the one line `l`, for a line that is no heading.
proof fn lemma_one_line_page(l: Seq<char>)
    requires
        l.len() > 0,
        forall|i: int| 0 <= i < l.len() ==> #[trigger] l[i] != '\n',
        !is_numbered_heading(l),
    ensures
        wtml_html(l) == wtml_step((toc_head(), Seq::empty(), 0), l).1,
{
    lemma_single_line(l);
    assert(seq![l].drop_last() =~= Seq::<Seq<char>>::empty());
    lemma_step_counts((toc_head(), Seq::empty(), 0), l);
    let r = wtml_step((toc_head(), Seq::empty(), 0), l);
    assert(wtml_fold(Seq::<Seq<char>>::empty()) == (toc_head(), Seq::<char>::empty(), 0nat));
    assert(seq![l].last() == l);
    assert(wtml_fold(seq![l]) == wtml_step(wtml_fold(seq![l].drop_last()), seq![l].last()));
    assert(wtml_fold(seq![l]) == r);
}

/// A line that starts neither with `#` nor with three `-` is ordinary text:
/// it turns into the HTML of `get_line_html` and a line break.
pub proof fn law_ordinary_line(l: Seq<char>)
    requires
        l.len() > 0,
        forall|i: int| 0 <= i < l.len() ==> #[trigger] l[i] != '\n',
        l[0] != '#',
        !(l.len() >= 3 && l[0] == '-' && l[1] == '-' && l[2] == '-'),
    ensures
        wtml_html(l) == line_html(l) + "<br/>\n"@,
{
    lemma_marks(l);
    lemma_one_line_page(l);
}

/// A line whose first three chars are `-` is a rule, whatever follows.
pub proof fn law_rule_line(l: Seq<char>)
    requires
        l.len() >= 3,
        forall|i: int| 0 <= i < l.len() ==> #[trigger] l[i] != '\n',
        l[0] == '-' && l[1] == '-' && l[2] == '-',
    ensures
        wtml_html(l) == "<hr />"@ + "<br/>\n"@,
{
    lemma_marks(l);
    lemma_one_line_page(l);
}

/// The text of a heading that is left out of the contents is escaped: a
/// line `#-t`, `##-t` or `###-t` turns into an `h2`, `h3` or `h4` heading
/// whose content is `t` escaped, which holds no `<`, `>`, `"` or `'`.
pub proof fn law_unnumbered_heading_escaped(l: Seq<char>)
    requires
        l.len() >= 2,
        forall|i: int| 0 <= i < l.len() ==> #[trigger] l[i] != '\n',
        l[0] == '#',
    ensures
        l[1] == '-' ==> wtml_html(l) == "<h2>"@ + esc_seq(trim_prefix(l, seq!['#', '-']))
            + "</h2>\n"@ + "<br/>\n"@,
        (l.len() >= 3 && l[1] == '#' && l[2] == '-') ==> wtml_html(l) == "<h3>"@ + esc_seq(
            trim_prefix(l, seq!['#', '#', '-']),
        ) + "</h3>\n"@ + "<br/>\n"@,
        (l.len() >= 4 && l[1] == '#' && l[2] == '#' && l[3] == '-') ==> wtml_html(l) == "<h4>"@
            + esc_seq(trim_prefix(l, seq!['#', '#', '#', '-'])) + "</h4>\n"@ + "<br/>\n"@,
{
    lemma_marks(l);
    reveal_strlit("###-");
    reveal_strlit("##-");
    reveal_strlit("#-");
    assert("#-"@ =~= seq!['#', '-']);
    assert("##-"@ =~= seq!['#', '#', '-']);
    assert("###-"@ =~= seq!['#', '#', '#', '-']);
    if l[1] == '-' || (l.len() >= 3 && l[1] == '#' && l[2] == '-') || (l.len() >= 4 && l[1] == '#'
        && l[2] == '#' && l[3] == '-') {
        lemma_one_line_page(l);
    }
}

proof fn lemma_single_numbered_page(l: Seq<char>)
    requires
        l.len() > 0,
        forall|i: int| 0 <= i < l.len() ==> #[trigger] l[i] != '\n',
        is_numbered_heading(l),
    ensures
        wtml_html(l) == wtml_step((toc_head(), Seq::empty(), 0), l).0 + "</div>"@ + wtml_step(
            (toc_head(), Seq::empty(), 0),
            l,
        ).1,
        decimal(1) == seq!['1'],
{
    lemma_single_line(l);
    assert(seq![l].drop_last() =~= Seq::<Seq<char>>::empty());
    assert(wtml_fold(Seq::<Seq<char>>::empty()) == (toc_head(), Seq::<char>::empty(), 0nat));
    assert(seq![l].last() == l);
    lemma_step_counts((toc_head(), Seq::empty(), 0), l);
    assert(wtml_fold(seq![l]) == wtml_step((toc_head(), Seq::empty(), 0), l));
    assert(decimal(1) =~= seq!['1']);
}

/// A page that is one line `#t` (not `#-`, not `##`): the table of contents
/// holds its one entry, indented by one wide space, and the heading is an
/// `h2` with the id `row1`; `t` is escaped in both places.
pub proof fn law_single_h2_heading(l: Seq<char>)
    requires
        l.len() > 0,
        forall|i: int| 0 <= i < l.len() ==> #[trigger] l[i] != '\n',
        l[0] == '#',
        l.len() == 1 || (l[1] != '#' && l[1] != '-'),
    ensures
        wtml_html(l) == "<div class='table_of_contents'>\n"@ + seq!['\u{3000}'] + "<a href='row"@
            + seq!['1'] + "'>"@ + esc_seq(trim_prefix(l, seq!['#'])) + "</a><br/>\n"@ + "</div>"@
            + "<h2 id='row"@ + seq!['1'] + "'>"@ + esc_seq(trim_prefix(l, seq!['#'])) + "</h2>\n"@
            + "<br/>\n"@,
{
    lemma_marks(l);
    lemma_single_numbered_page(l);
    reveal_strlit("\u{3000}");
    reveal_strlit("#");
    assert("\u{3000}"@ =~= seq!['\u{3000}']);
    assert("#"@ =~= seq!['#']);
}

/// A page that is one line `##t` (not `##-`, not `###`): one entry indented
/// by three wide spaces, and an `h3` heading with the id `row1`, closed by
/// `</32>`; `t` is escaped in both places.
pub proof fn law_single_h3_heading(l: Seq<char>)
    requires
        l.len() >= 2,
        forall|i: int| 0 <= i < l.len() ==> #[trigger] l[i] != '\n',
        l[0] == '#' && l[1] == '#',
        l.len() == 2 || (l[2] != '#' && l[2] != '-'),
    ensures
        wtml_html(l) == "<div class='table_of_contents'>\n"@ + seq![
            '\u{3000}',
            '\u{3000}',
            '\u{3000}',
        ] + "<a href='row"@ + seq!['1'] + "'>"@ + esc_seq(trim_prefix(l, seq!['#', '#']))
            + "</a><br/>\n"@ + "</div>"@ + "<h3 id='row"@ + seq!['1'] + "'>"@ + esc_seq(
            trim_prefix(l, seq!['#', '#']),
        ) + "</32>\n"@ + "<br/>\n"@,
{
    lemma_marks(l);
    lemma_single_numbered_page(l);
    reveal_strlit("\u{3000}\u{3000}\u{3000}");
    reveal_strlit("##");
    assert("\u{3000}\u{3000}\u{3000}"@ =~= seq!['\u{3000}', '\u{3000}', '\u{3000}']);
    assert("##"@ =~= seq!['#', '#']);
}

/// A page that is one line `###t` (not `###-`): one entry indented by five
/// wide spaces, and an `h4` heading with the id `row1`; `t` is escaped in
/// both places.
pub proof fn law_single_h4_heading(l: Seq<char>)
    requires
        l.len() >= 3,
        forall|i: int| 0 <= i < l.len() ==> #[trigger] l[i] != '\n',
        l[0] == '#' && l[1] == '#' && l[2] == '#',
        l.len() == 3 || l[3] != '-',
    ensures
        wtml_html(l) == "<div class='table_of_contents'>\n"@ + seq![
            '\u{3000}',
            '\u{3000}',
            '\u{3000}',
            '\u{3000}',
            '\u{3000}',
        ] + "<a href='row"@ + seq!['1'] + "'>"@ + esc_seq(trim_prefix(l, seq!['#', '#', '#']))
            + "</a><br/>\n"@ + "</div>"@ + "<h4 id='row"@ + seq!['1'] + "'>"@ + esc_seq(
            trim_prefix(l, seq!['#', '#', '#']),
        ) + "</h4>\n"@ + "<br/>\n"@,
{
    lemma_marks(l);
    lemma_single_numbered_page(l);
    reveal_strlit("\u{3000}\u{3000}\u{3000}\u{3000}\u{3000}");
    reveal_strlit("###");
    assert("\u{3000}\u{3000}\u{3000}\u{3000}\u{3000}"@ =~= seq![
        '\u{3000}',
        '\u{3000}',
        '\u{3000}',
        '\u{3000}',
        '\u{3000}',
    ]);
    assert("###"@ =~= seq!['#', '#', '#']);
}

fn has_prefix(l: &[char], p: &[char]) -> (r: bool)
    ensures
        r == starts_with(l@, p@),
{
    if p.len() > l.len() {
        return false;
    }
    let mut k: usize = 0;
    while k < p.len()
        invariant
            p@.len() <= l@.len(),
            k <= p@.len(),
            forall|j: int| 0 <= j < k ==> l@[j] == p@[j],
        decreases p.len() - k,
    {
        if l[k] != p[k] {
            assert(l@.take(p@.len() as int)[k as int] != p@[k as int]);
            return false;
        }
        k = k + 1;
    }
    assert(l@.take(p@.len() as int) =~= p@);
    true
}

fn trim_prefix_chars(l: &[char], p: &[char]) -> (r: Vec<char>)
    ensures
        r@ == trim_prefix(l@, p@),
{
    let n = l.len();
    if p.len() == 0 {
        return copy_range(l, 0, n);
    }
    let mut k: usize = 0;
    let mut rest = copy_range(l, 0, n);
    assert(rest@ =~= l@.skip(0));
    assert(l@.skip(0) =~= l@);
    while has_prefix(rest.as_slice(), p)
        invariant
            n == l@.len(),
            p@.len() > 0,
            k <= n,
            rest@ == l@.skip(k as int),
            trim_prefix(l@, p@) == trim_prefix(rest@, p@),
        decreases n - k,
    {
        let ghost old_rest = rest@;
        k = k + p.len();
        rest = copy_range(l, k, n);
        assert(rest@ =~= old_rest.skip(p@.len() as int));
    }
    rest
}

fn push_plain_heading(html: &mut String, open: &str, close: &str, t: &[char])
    ensures
        final(html)@ == old(html)@ + open@ + esc_seq(t@) + close@ + "<br/>\n"@,
{
    html.append(open);
    push_escaped(html, t);
    html.append(close);
    html.append("<br/>\n");
    assert(final(html)@ =~= old(html)@ + open@ + esc_seq(t@) + close@ + "<br/>\n"@);
}

fn push_numbered_heading(
    toc: &mut String,
    html: &mut String,
    num: usize,
    indent: &str,
    open: &str,
    close: &str,
    t: &[char],
)
    ensures
        final(toc)@ == old(toc)@ + toc_entry(indent@, num as nat, esc_seq(t@)),
        final(html)@ == old(html)@ + open@ + decimal(num as nat) + "'>"@ + esc_seq(t@) + close@
            + "<br/>\n"@,
{
    let d = decimal_chars(num);
    toc.append(indent);
    toc.append("<a href='row");
    push_chars(toc, d.as_slice());
    toc.append("'>");
    push_escaped(toc, t);
    toc.append("</a><br/>\n");
    assert(final(toc)@ =~= old(toc)@ + toc_entry(indent@, num as nat, esc_seq(t@)));
    html.append(open);
    push_chars(html, d.as_slice());
    html.append("'>");
    push_escaped(html, t);
    html.append(close);
    html.append("<br/>\n");
    assert(final(html)@ =~= old(html)@ + open@ + decimal(num as nat) + "'>"@ + esc_seq(t@) + close@
        + "<br/>\n"@);
}

/// Adds what the line `l` turns into to the table of contents `toc`, the body
/// `html` and the count `n` of numbered headings.
fn render_line(toc: &mut String, html: &mut String, n: &mut usize, l: &[char])
    requires
        *old(n) < usize::MAX,
    ensures
        (final(toc)@, final(html)@, *final(n) as nat) == wtml_step(
            (old(toc)@, old(html)@, *old(n) as nat),
            l@,
        ),
{
    let h3m = chars_of("###-");
    let h3 = chars_of("###");
    let h2m = chars_of("##-");
    let h2 = chars_of("##");
    let h1m = chars_of("#-");
    let h1 = chars_of("#");
    let hr = chars_of("---");
    if has_prefix(l, h3m.as_slice()) {
        let t = trim_prefix_chars(l, h3m.as_slice());
        push_plain_heading(html, "<h4>", "</h4>\n", t.as_slice());
    } else if has_prefix(l, h3.as_slice()) {
        let t = trim_prefix_chars(l, h3.as_slice());
        *n = *n + 1;
        push_numbered_heading(
            toc,
            html,
            *n,
            "\u{3000}\u{3000}\u{3000}\u{3000}\u{3000}",
            "<h4 id='row",
            "</h4>\n",
            t.as_slice(),
        );
    } else if has_prefix(l, h2m.as_slice()) {
        let t = trim_prefix_chars(l, h2m.as_slice());
        push_plain_heading(html, "<h3>", "</h3>\n", t.as_slice());
    } else if has_prefix(l, h2.as_slice()) {
        let t = trim_prefix_chars(l, h2.as_slice());
        *n = *n + 1;
        push_numbered_heading(
            toc,
            html,
            *n,
            "\u{3000}\u{3000}\u{3000}",
            "<h3 id='row",
            "</32>\n",
            t.as_slice(),
        );
    } else if has_prefix(l, h1m.as_slice()) {
        let t = trim_prefix_chars(l, h1m.as_slice());
        push_plain_heading(html, "<h2>", "</h2>\n", t.as_slice());
    } else if has_prefix(l, h1.as_slice()) {
        let t = trim_prefix_chars(l, h1.as_slice());
        *n = *n + 1;
        push_numbered_heading(
            toc,
            html,
            *n,
            "\u{3000}",
            "<h2 id='row",
            "</h2>\n",
            t.as_slice(),
        );
    } else if has_prefix(l, hr.as_slice()) {
        html.append("<hr />");
        html.append("<br/>\n");
        assert(html@ =~= old(html)@ + "<hr />"@ + "<br/>\n"@);
    } else {
        let lh = line_html_of_chars(l);
        html.append(lh.as_str());
        html.append("<br/>\n");
        assert(html@ =~= old(html)@ + line_html(l@) + "<br/>\n"@);
    }
}

/// Converts a page of wiki markup into HTML. Lines that start with `#`, `##`
/// or `###` become numbered headings listed in a table of contents placed
/// before the body; with `-` after the marks they become headings left out
/// of it. A line starting with `---` becomes a rule; every other line goes
/// through `get_line_html`. Each line ends with a line break.
pub fn get_html_from_wtml(wtml: &String) -> (r: String)
    ensures
        r@ == wtml_html(wtml@),
{
    let cs = chars_of(wtml.as_str());
    let spans = line_spans(cs.as_slice());
    let mut toc = String::new();
    toc.append("<div class='table_of_contents'>\n");
    let mut html = String::new();
    let mut n: usize = 0;
    let ghost ls = lines_of(cs@);
    let mut i: usize = 0;
    assert(toc@ =~= toc_head());
    while i < spans.len()
        invariant
            cs@ == wtml@,
            ls == lines_of(cs@),
            spans@.len() == ls.len(),
            forall|j: int| 0 <= j < spans@.len() ==> (#[trigger] spans@[j]).0 <= spans@[j].1 <= cs@.len(),
            forall|j: int|
                0 <= j < spans@.len() ==> #[trigger] ls[j] == cs@.subrange(
                    spans@[j].0 as int,
                    spans@[j].1 as int,
                ),
            i <= spans@.len(),
            n <= i,
            (toc@, html@, n as nat) == wtml_fold(ls.take(i as int)),
        decreases spans.len() - i,
    {
        let (lo, hi) = spans[i];
        assert(spans@[i as int].0 <= spans@[i as int].1 <= cs@.len());
        let l = copy_range(cs.as_slice(), lo, hi);
        assert(l@ == ls[i as int]);
        render_line(&mut toc, &mut html, &mut n, l.as_slice());
        assert(ls.take(i + 1).drop_last() =~= ls.take(i as int));
        i = i + 1;
    }
    assert(ls.take(i as int) =~= ls);
    if n > 0 {
        toc.append("</div>");
        toc.append(html.as_str());
        assert(toc@ =~= wtml_html(wtml@));
        toc
    } else {
        html
    }
}

} // verus!
