use vstd::prelude::*;
use crate::text::chars_of;

verus! {

/// The HTML text that stands for one char: the five characters that are
/// special in HTML become entities, every other char stands for itself.
pub open spec fn esc_char(c: char) -> Seq<char> {
    if c == '&' {
        seq!['&', 'a', 'm', 'p', ';']
    } else if c == '<' {
        seq!['&', 'l', 't', ';']
    } else if c == '>' {
        seq!['&', 'g', 't', ';']
    } else if c == '"' {
        seq!['&', 'q', 'u', 'o', 't', ';']
    } else if c == '\'' {
        seq!['&', '#', '3', '9', ';']
    } else {
        seq![c]
    }
}

/// `s` escaped for HTML, char by char.
pub open spec fn esc_seq(s: Seq<char>) -> Seq<char>
    decreases s.len(),
{
    if s.len() == 0 {
        Seq::empty()
    } else {
        esc_seq(s.drop_last()) + esc_char(s.last())
    }
}

/// Appends `cs` escaped for HTML to `out`.
pub fn push_escaped(out: &mut String, cs: &[char])
    ensures
        final(out)@ == old(out)@ + esc_seq(cs@),
{
    let n = cs.len();
    let mut i: usize = 0;
    while i < n
        invariant
            n == cs@.len(),
            i <= n,
            out@ == old(out)@ + esc_seq(cs@.take(i as int)),
        decreases n - i,
    {
        let c = cs[i];
        let ghost before = out@;
        if c == '&' {
            out.push('&');
            out.push('a');
            out.push('m');
            out.push('p');
            out.push(';');
        } else if c == '<' {
            out.push('&');
            out.push('l');
            out.push('t');
            out.push(';');
        } else if c == '>' {
            out.push('&');
            out.push('g');
            out.push('t');
            out.push(';');
        } else if c == '"' {
            out.push('&');
            out.push('q');
            out.push('u');
            out.push('o');
            out.push('t');
            out.push(';');
        } else if c == '\'' {
            out.push('&');
            out.push('#');
            out.push('3');
            out.push('9');
            out.push(';');
        } else {
            out.push(c);
        }
        assert(out@ =~= before + esc_char(c));
        i = i + 1;
        assert(cs@.take(i as int).drop_last() =~= cs@.take(i - 1));
        assert(esc_seq(cs@.take(i as int)) == esc_seq(cs@.take(i - 1)) + esc_char(c));
        assert(out@ =~= old(out)@ + esc_seq(cs@.take(i as int)));
    }
    assert(cs@.take(n as int) =~= cs@);
}

/// Escapes `&`, `<`, `>`, `"` and `'` for HTML.
pub fn esc_html(s: &str) -> (r: String)
    ensures
        r@ == esc_seq(s@),
{
    let cs = chars_of(s);
    let mut r = String::new();
    push_escaped(&mut r, cs.as_slice());
    r
}

/// The chars that HTML gives a meaning of their own in text and attributes.
pub open spec fn is_html_special(c: char) -> bool {
    c == '&' || c == '<' || c == '>' || c == '"' || c == '\''
}

/// Escaping distributes over concatenation: the escape of `a + b` is the
/// escape of `a` followed by the escape of `b`.
pub proof fn lemma_esc_seq_append(a: Seq<char>, b: Seq<char>)
    ensures
        esc_seq(a + b) == esc_seq(a) + esc_seq(b),
    decreases b.len(),
{
    if b.len() == 0 {
        assert(a + b =~= a);
        assert(esc_seq(a) + esc_seq(b) =~= esc_seq(a));
    } else {
        lemma_esc_seq_append(a, b.drop_last());
        assert((a + b).drop_last() =~= a + b.drop_last());
        assert((a + b).last() == b.last());
        assert(esc_seq(a + b) =~= esc_seq(a) + esc_seq(b));
    }
}

/// Escaped text holds no `<`, `>`, `"` or `'`: nothing in it can open or
/// close a tag or an attribute value.
pub proof fn law_escaped_text_has_no_markup(s: Seq<char>)
    ensures
        forall|i: int|
            0 <= i < esc_seq(s).len() ==> {
                let c = #[trigger] esc_seq(s)[i];
                c != '<' && c != '>' && c != '"' && c != '\''
            },
    decreases s.len(),
{
    if s.len() > 0 {
        law_escaped_text_has_no_markup(s.drop_last());
        let e = esc_seq(s);
        let p = esc_seq(s.drop_last());
        let q = esc_char(s.last());
        assert(e == p + q);
        assert forall|i: int| 0 <= i < e.len() implies {
            let c = #[trigger] e[i];
            c != '<' && c != '>' && c != '"' && c != '\''
        } by {
            if i < p.len() {
                assert(e[i] == p[i]);
            } else {
                assert(e[i] == q[i - p.len()]);
            }
        }
    }
}

/// Text without any of the five special chars is left as it is.
pub proof fn law_plain_text_unchanged(s: Seq<char>)
    requires
        forall|i: int| 0 <= i < s.len() ==> !is_html_special(#[trigger] s[i]),
    ensures
        esc_seq(s) == s,
    decreases s.len(),
{
    if s.len() > 0 {
        law_plain_text_unchanged(s.drop_last());
        assert(!is_html_special(s[s.len() - 1]));
        assert(esc_seq(s) =~= s.drop_last() + seq![s.last()]);
        assert(s.drop_last() + seq![s.last()] =~= s);
    }
}

pub proof fn lemma_esc_seq_first(c: char, rest: Seq<char>)
    ensures
        esc_seq(seq![c] + rest) == esc_char(c) + esc_seq(rest),
{
    lemma_esc_seq_append(seq![c], rest);
    assert(seq![c].drop_last() =~= Seq::<char>::empty());
    assert(esc_seq(Seq::<char>::empty()) =~= Seq::<char>::empty());
    assert(seq![c].last() == c);
    assert(esc_seq(seq![c]) =~= esc_seq(seq![c].drop_last()) + esc_char(c));
    assert(esc_seq(seq![c]) =~= esc_char(c));
}

/// Escaping loses nothing: different texts escape to different HTML.
pub proof fn law_escaping_is_injective(s: Seq<char>, t: Seq<char>)
    requires
        esc_seq(s) == esc_seq(t),
    ensures
        s == t,
    decreases s.len() + t.len(),
{
    if s.len() == 0 || t.len() == 0 {
        if s.len() > 0 {
            lemma_esc_seq_first(s[0], s.drop_first());
            assert(seq![s[0]] + s.drop_first() =~= s);
        }
        if t.len() > 0 {
            lemma_esc_seq_first(t[0], t.drop_first());
            assert(seq![t[0]] + t.drop_first() =~= t);
        }
        assert(s =~= t);
    } else {
        let a = s[0];
        let b = t[0];
        lemma_esc_seq_first(a, s.drop_first());
        lemma_esc_seq_first(b, t.drop_first());
        assert(seq![a] + s.drop_first() =~= s);
        assert(seq![b] + t.drop_first() =~= t);
        let ea = esc_char(a);
        let eb = esc_char(b);
        let es = esc_seq(s);
        assert(es == ea + esc_seq(s.drop_first()));
        assert(es == eb + esc_seq(t.drop_first()));
        // The first escaped char and, for entities, the second one tell
        // which char was escaped.
        assert(es[0] == ea[0]);
        assert(es[0] == eb[0]);
        if is_html_special(a) {
            assert(ea[0] == '&');
            assert(es[1] == ea[1]);
            assert(es[1] == eb[1]);
        }
        if is_html_special(b) {
            assert(eb[0] == '&');
            assert(es[1] == ea[1]);
        }
        assert(a == b);
        assert(esc_seq(s.drop_first()) =~= es.skip(ea.len() as int));
        assert(esc_seq(t.drop_first()) =~= es.skip(eb.len() as int));
        law_escaping_is_injective(s.drop_first(), t.drop_first());
    }
}

/// Every non-overlapping occurrence of `pat` in `s`, found from left to
/// right, replaced by `rep`; what a replacement writes is not searched again.
/// This is what `str::replace` does.
pub open spec fn replace_all(s: Seq<char>, pat: Seq<char>, rep: Seq<char>) -> Seq<char>
    decreases s.len(),
{
    if pat.len() == 0 || s.len() < pat.len() {
        s
    } else if s.take(pat.len() as int) == pat {
        rep + replace_all(s.skip(pat.len() as int), pat, rep)
    } else {
        seq![s[0]] + replace_all(s.skip(1), pat, rep)
    }
}

/// HTML text decoded by the five replacements `&#39;` to `'`, `&quot;` to
/// `"`, `&gt;` to `>`, `&lt;` to `<` and last `&amp;` to `&`.
pub open spec fn unescape_seq(t: Seq<char>) -> Seq<char> {
    replace_all(
        replace_all(
            replace_all(
                replace_all(replace_all(t, esc_char('\''), seq!['\'']), esc_char('"'), seq!['"']),
                esc_char('>'),
                seq!['>'],
            ),
            esc_char('<'),
            seq!['<'],
        ),
        esc_char('&'),
        seq!['&'],
    )
}

/// The special char that replacement number `k` (1 to 5) of `unescape_seq`
/// turns back.
pub open spec fn decoded_char(k: int) -> char {
    if k == 1 {
        '\''
    } else if k == 2 {
        '"'
    } else if k == 3 {
        '>'
    } else if k == 4 {
        '<'
    } else {
        '&'
    }
}

/// Whether the first `k` replacements have turned `c` back.
pub open spec fn decoded_by(k: int, c: char) -> bool {
    exists|j: int| 1 <= j <= k && decoded_char(j) == c
}

/// What the char `c` stands as after the first `k` replacements.
pub open spec fn piece_after(k: int, c: char) -> Seq<char> {
    if is_html_special(c) && !decoded_by(k, c) {
        esc_char(c)
    } else {
        seq![c]
    }
}

/// The chars of `s` as they stand after the first `k` replacements.
pub open spec fn text_after(k: int, s: Seq<char>) -> Seq<char>
    decreases s.len(),
{
    if s.len() == 0 {
        Seq::empty()
    } else {
        piece_after(k, s[0]) + text_after(k, s.drop_first())
    }
}

/// `p` holds no `&` but perhaps at its start, and when it starts with `&` it
/// is `pat` or differs from it in its second char.
pub open spec fn fits_pattern(p: Seq<char>, pat: Seq<char>) -> bool {
    &&& forall|i: int| 1 <= i < p.len() ==> #[trigger] p[i] != '&'
    &&& (p.len() > 0 && p[0] == '&') ==> (p == pat || (p.len() >= 2 && p[1] != pat[1]))
}

proof fn lemma_replace_no_amp(x: Seq<char>, rest: Seq<char>, pat: Seq<char>, rep: Seq<char>)
    requires
        pat.len() >= 2,
        pat[0] == '&',
        forall|i: int| 0 <= i < x.len() ==> #[trigger] x[i] != '&',
    ensures
        replace_all(x + rest, pat, rep) == x + replace_all(rest, pat, rep),
    decreases x.len(),
{
    if x.len() > 0 {
        let s = x + rest;
        if s.len() < pat.len() {
            assert(replace_all(rest, pat, rep) == rest);
            assert(x + rest == s);
        } else {
            assert(s.take(pat.len() as int)[0] == x[0]);
            assert(s.take(pat.len() as int) != pat);
            assert(s.skip(1) =~= x.skip(1) + rest);
            lemma_replace_no_amp(x.skip(1), rest, pat, rep);
            assert(seq![s[0]] + (x.skip(1) + replace_all(rest, pat, rep)) =~= x + replace_all(
                rest,
                pat,
                rep,
            ));
        }
    } else {
        assert(x + rest =~= rest);
    }
}

proof fn lemma_replace_piece(p: Seq<char>, rest: Seq<char>, pat: Seq<char>, rep: Seq<char>)
    requires
        pat.len() >= 2,
        pat[0] == '&',
        fits_pattern(p, pat),
    ensures
        replace_all(p + rest, pat, rep) == (if p == pat {
            rep
        } else {
            p
        }) + replace_all(rest, pat, rep),
{
    let s = p + rest;
    if p.len() == 0 || p[0] != '&' {
        assert forall|i: int| 0 <= i < p.len() implies #[trigger] p[i] != '&' by {
            if i >= 1 {
                assert(p[i] != '&');
            }
        }
        lemma_replace_no_amp(p, rest, pat, rep);
        if p == pat {
            assert(p[0] == '&');
        }
    } else if p == pat {
        assert(s.take(pat.len() as int) =~= pat);
        assert(s.skip(pat.len() as int) =~= rest);
    } else {
        let t = p.skip(1);
        assert forall|i: int| 0 <= i < t.len() implies #[trigger] t[i] != '&' by {
            assert(t[i] == p[i + 1]);
        }
        if s.len() < pat.len() {
            assert(replace_all(rest, pat, rep) == rest);
        } else {
            assert(s.take(pat.len() as int)[1] == p[1]);
            assert(s.take(pat.len() as int) != pat);
            assert(s.skip(1) =~= t + rest);
            lemma_replace_no_amp(t, rest, pat, rep);
            assert(seq![s[0]] + (t + replace_all(rest, pat, rep)) =~= p + replace_all(
                rest,
                pat,
                rep,
            ));
        }
    }
}

proof fn lemma_piece_step(k: int, c: char)
    requires
        1 <= k <= 5,
    ensures
        fits_pattern(piece_after(k - 1, c), esc_char(decoded_char(k))),
        piece_after(k, c) == (if piece_after(k - 1, c) == esc_char(decoded_char(k)) {
            seq![decoded_char(k)]
        } else {
            piece_after(k - 1, c)
        }),
{
    let pat = esc_char(decoded_char(k));
    let p = piece_after(k - 1, c);
    if decoded_by(k - 1, c) {
        let j = choose|j: int| 1 <= j <= k - 1 && decoded_char(j) == c;
        assert(decoded_by(k, c));
    }
    if decoded_by(k, c) {
        let j = choose|j: int| 1 <= j <= k && decoded_char(j) == c;
        if j < k {
            assert(decoded_by(k - 1, c));
        }
    }
    if c == decoded_char(k) {
        assert(decoded_by(k, c));
        if decoded_by(k - 1, c) {
            let j = choose|j: int| 1 <= j <= k - 1 && decoded_char(j) == c;
            assert(false);
        }
    } else if is_html_special(c) && !decoded_by(k - 1, c) {
        assert(!decoded_by(k, c)) by {
            if decoded_by(k, c) {
                let j = choose|j: int| 1 <= j <= k && decoded_char(j) == c;
                assert(j < k);
                assert(decoded_by(k - 1, c));
            }
        }
        assert(p[1] != pat[1]);
    } else if is_html_special(c) {
        assert(decoded_by(k, c));
        assert(p =~= seq![c]);
        assert(c != '&') by {
            let j = choose|j: int| 1 <= j <= k - 1 && decoded_char(j) == c;
        }
    } else {
        assert(p.len() == 1);
    }
}

proof fn lemma_text_step(k: int, s: Seq<char>)
    requires
        1 <= k <= 5,
    ensures
        replace_all(text_after(k - 1, s), esc_char(decoded_char(k)), seq![decoded_char(k)])
            == text_after(k, s),
    decreases s.len(),
{
    let pat = esc_char(decoded_char(k));
    let rep = seq![decoded_char(k)];
    if s.len() == 0 {
        assert(text_after(k - 1, s) == Seq::<char>::empty());
        assert(replace_all(Seq::<char>::empty(), pat, rep) == Seq::<char>::empty());
    } else {
        lemma_piece_step(k, s[0]);
        lemma_text_step(k, s.drop_first());
        lemma_replace_piece(piece_after(k - 1, s[0]), text_after(k - 1, s.drop_first()), pat, rep);
    }
}

proof fn lemma_text_after_ends(s: Seq<char>)
    ensures
        text_after(0, s) == esc_seq(s),
        text_after(5, s) == s,
    decreases s.len(),
{
    if s.len() > 0 {
        lemma_text_after_ends(s.drop_first());
        lemma_esc_seq_first(s[0], s.drop_first());
        assert(seq![s[0]] + s.drop_first() =~= s);
        assert(piece_after(0, s[0]) == esc_char(s[0])) by {
            if decoded_by(0, s[0]) {
                let j = choose|j: int| 1 <= j <= 0 && decoded_char(j) == s[0];
            }
        }
        assert(piece_after(5, s[0]) == seq![s[0]]) by {
            if is_html_special(s[0]) {
                let c = s[0];
                let j: int = if c == '\'' {
                    1
                } else if c == '"' {
                    2
                } else if c == '>' {
                    3
                } else if c == '<' {
                    4
                } else {
                    5
                };
                assert(decoded_char(j) == c);
                assert(decoded_by(5, c));
            }
        }
    }
}

/// Escaped HTML decodes back: the five replacements `&#39;` to `'`,
/// `&quot;` to `"`, `&gt;` to `>`, `&lt;` to `<` and then `&amp;` to `&` turn
/// the escape of `s` into `s` again.
pub proof fn law_unescape_after_escape(s: Seq<char>)
    ensures
        unescape_seq(esc_seq(s)) == s,
{
    lemma_text_after_ends(s);
    lemma_text_step(1, s);
    lemma_text_step(2, s);
    lemma_text_step(3, s);
    lemma_text_step(4, s);
    lemma_text_step(5, s);
}

} // verus!
