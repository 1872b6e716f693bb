use vstd::prelude::*;

verus! {

// A text splits into lines at each line feed. A carriage return just before
// a line feed belongs to the line ending; a final line feed ends the last
// line rather than starting an empty one.

/// The first line feed at or after `p`, or the length of `s` when none.
pub open spec fn line_end(s: Seq<char>, p: int) -> int
    decreases s.len() - p,
{
    if p < 0 || p >= s.len() {
        s.len() as int
    } else if s[p] == '\n' {
        p
    } else {
        line_end(s, p + 1)
    }
}

/// `l` without one carriage return at its end.
pub open spec fn strip_cr(l: Seq<char>) -> Seq<char> {
    if l.len() > 0 && l.last() == '\r' {
        l.drop_last()
    } else {
        l
    }
}

/// The lines of `s` that start at or after `p`.
pub open spec fn lines_from(s: Seq<char>, p: int) -> Seq<Seq<char>>
    decreases s.len() - p,
    via lines_from_decreases
{
    if p < 0 || p >= s.len() {
        Seq::empty()
    } else {
        let e = line_end(s, p);
        if e >= s.len() {
            seq![s.subrange(p, s.len() as int)]
        } else {
            seq![strip_cr(s.subrange(p, e))] + lines_from(s, e + 1)
        }
    }
}

#[via_fn]
proof fn lines_from_decreases(s: Seq<char>, p: int) {
    if 0 <= p < s.len() {
        lemma_line_end_bounds(s, p);
    }
}

/// The lines of `s`.
pub open spec fn lines_of(s: Seq<char>) -> Seq<Seq<char>> {
    lines_from(s, 0)
}

pub proof fn lemma_line_end_bounds(s: Seq<char>, p: int)
    requires
        0 <= p <= s.len(),
    ensures
        p <= line_end(s, p) <= s.len(),
        line_end(s, p) < s.len() ==> s[line_end(s, p)] == '\n',
        forall|k: int| p <= k < line_end(s, p) ==> #[trigger] s[k] != '\n',
    decreases s.len() - p,
{
    if p < s.len() && s[p] != '\n' {
        lemma_line_end_bounds(s, p + 1);
    }
}

proof fn lemma_line_end_shift(x: Seq<char>, y: Seq<char>, q: int)
    requires
        0 <= q <= y.len(),
    ensures
        line_end(x + y, x.len() + q) == x.len() + line_end(y, q),
    decreases y.len() - q,
{
    if q < y.len() {
        assert((x + y)[x.len() + q] == y[q]);
        if y[q] != '\n' {
            lemma_line_end_shift(x, y, q + 1);
        }
    }
}

/// The lines of `x + y` from the start of `y` on are the lines of `y`.
proof fn lemma_lines_from_shift(x: Seq<char>, y: Seq<char>, q: int)
    requires
        0 <= q <= y.len(),
    ensures
        lines_from(x + y, x.len() + q) == lines_from(y, q),
    decreases y.len() - q,
{
    let s = x + y;
    if q < y.len() {
        lemma_line_end_shift(x, y, q);
        lemma_line_end_bounds(y, q);
        let e = line_end(y, q);
        if e >= y.len() {
            assert(s.subrange(x.len() + q, s.len() as int) =~= y.subrange(q, y.len() as int));
        } else {
            assert(s.subrange(x.len() + q, x.len() + e) =~= y.subrange(q, e));
            lemma_lines_from_shift(x, y, e + 1);
        }
    }
}

/// `a` followed by a line feed and `b`, with `a` free of line ends at its end.
proof fn lemma_lines_from_join(a: Seq<char>, b: Seq<char>, p: int)
    requires
        a.len() > 0,
        a.last() != '\n',
        a.last() != '\r',
        0 <= p < a.len(),
    ensures
        lines_from(a + seq!['\n'] + b, p) == lines_from(a, p) + lines_of(b),
    decreases a.len() - p,
{
    let s = a + seq!['\n'] + b;
    let x = a + seq!['\n'];
    assert(s =~= x + b);
    lemma_line_end_bounds(a, p);
    lemma_line_end_shift(a, seq!['\n'] + b, 0);
    assert(a + (seq!['\n'] + b) =~= s);
    let e = line_end(a, p);
    assert(line_end(s, p) == e) by {
        lemma_line_end_prefix(a, seq!['\n'] + b, p);
    }
    if e < a.len() {
        assert(e + 1 < a.len());
        assert(s.subrange(p, e) =~= a.subrange(p, e));
        lemma_lines_from_join(a, b, e + 1);
        assert(lines_from(a, p) == seq![strip_cr(a.subrange(p, e))] + lines_from(a, e + 1));
        assert(lines_from(s, p) == seq![strip_cr(s.subrange(p, e))] + lines_from(s, e + 1));
        assert(lines_from(s, p) =~= lines_from(a, p) + lines_of(b));
    } else {
        assert(s.subrange(p, e) =~= a.subrange(p, a.len() as int));
        assert(s.subrange(p, e).last() == a.last());
        lemma_lines_from_shift(x, b, 0);
        assert(lines_from(s, e + 1) == lines_of(b));
        assert(lines_from(s, p) =~= lines_from(a, p) + lines_of(b));
    }
}

proof fn lemma_line_end_prefix(a: Seq<char>, c: Seq<char>, p: int)
    requires
        0 <= p <= a.len(),
        c.len() > 0,
        c[0] == '\n',
    ensures
        line_end(a + c, p) == line_end(a, p),
    decreases a.len() - p,
{
    if p < a.len() {
        assert((a + c)[p] == a[p]);
        if a[p] != '\n' {
            lemma_line_end_prefix(a, c, p + 1);
        }
    } else {
        assert((a + c)[p] == '\n');
    }
}

/// Two texts joined by a line feed have the lines of the first and then the
/// lines of the second, when the first is not empty and does not end with a
/// line feed or a carriage return.
pub proof fn law_lines_of_join(a: Seq<char>, b: Seq<char>)
    requires
        a.len() > 0,
        a.last() != '\n',
        a.last() != '\r',
    ensures
        lines_of(a + seq!['\n'] + b) == lines_of(a) + lines_of(b),
{
    lemma_lines_from_join(a, b, 0);
}

/// A final line feed adds no line to a text that does not end with a line
/// feed or a carriage return already.
pub proof fn law_final_line_feed_adds_no_line(a: Seq<char>)
    requires
        a.len() > 0,
        a.last() != '\n',
        a.last() != '\r',
    ensures
        lines_of(a.push('\n')) == lines_of(a),
{
    lemma_lines_from_join(a, Seq::empty(), 0);
    assert(a + seq!['\n'] + Seq::<char>::empty() =~= a.push('\n'));
    assert(lines_of(Seq::<char>::empty()) =~= Seq::<Seq<char>>::empty());
    assert(lines_of(a) + Seq::<Seq<char>>::empty() =~= lines_of(a));
}

proof fn lemma_lines_from_crlf(a: Seq<char>, b: Seq<char>, p: int)
    requires
        a.len() == 0 || a.last() != '\r',
        0 <= p <= a.len(),
    ensures
        lines_from(a + seq!['\r', '\n'] + b, p) == lines_from(a + seq!['\n'] + b, p),
    decreases a.len() - p,
{
    let s1 = a + seq!['\r', '\n'] + b;
    let s2 = a + seq!['\n'] + b;
    lemma_line_end_bounds(a, p);
    let e = line_end(a, p);
    assert(s1 =~= a + (seq!['\r', '\n'] + b));
    assert(s2 =~= a + (seq!['\n'] + b));
    lemma_line_end_prefix(a, seq!['\n'] + b, p);
    if e < a.len() {
        lemma_line_end_crlf_inner(a, b, p);
        assert(s1.subrange(p, e) =~= s2.subrange(p, e));
        lemma_lines_from_crlf(a, b, e + 1);
    } else {
        lemma_line_end_crlf_inner(a, b, p);
        assert(line_end(s1, p) == a.len() + 1);
        assert(line_end(s2, p) == a.len());
        assert(s1.subrange(p, a.len() as int + 1) =~= a.subrange(p, a.len() as int).push('\r'));
        assert(strip_cr(s1.subrange(p, a.len() as int + 1)) =~= a.subrange(p, a.len() as int));
        assert(s2.subrange(p, a.len() as int) =~= a.subrange(p, a.len() as int));
        if p < a.len() {
            assert(a.subrange(p, a.len() as int).last() == a.last());
        }
        assert(strip_cr(s2.subrange(p, a.len() as int)) =~= a.subrange(p, a.len() as int));
        assert(s1 =~= (a + seq!['\r', '\n']) + b);
        assert(s2 =~= (a + seq!['\n']) + b);
        lemma_lines_from_shift(a + seq!['\r', '\n'], b, 0);
        lemma_lines_from_shift(a + seq!['\n'], b, 0);
    }
}

proof fn lemma_line_end_crlf_inner(a: Seq<char>, b: Seq<char>, p: int)
    requires
        0 <= p <= a.len(),
    ensures
        line_end(a, p) < a.len() ==> line_end(a + seq!['\r', '\n'] + b, p) == line_end(a, p),
        line_end(a, p) >= a.len() ==> line_end(a + seq!['\r', '\n'] + b, p) == a.len() + 1,
    decreases a.len() - p,
{
    let s1 = a + seq!['\r', '\n'] + b;
    if p < a.len() {
        assert(s1[p] == a[p]);
        if a[p] != '\n' {
            lemma_line_end_crlf_inner(a, b, p + 1);
        }
    } else {
        assert(s1[p] == '\r');
        assert(s1[p + 1] == '\n');
        assert(line_end(s1, p + 1) == p + 1);
    }
}

/// A carriage return and line feed ends a line just as a line feed alone
/// does, when no other carriage return comes just before it.
pub proof fn law_crlf_same_lines_as_lf(a: Seq<char>, b: Seq<char>)
    requires
        a.len() == 0 || a.last() != '\r',
    ensures
        lines_of(a + seq!['\r', '\n'] + b) == lines_of(a + seq!['\n'] + b),
{
    lemma_lines_from_crlf(a, b, 0);
}

/// A text without line feeds that is not empty is one line.
pub proof fn lemma_single_line(l: Seq<char>)
    requires
        l.len() > 0,
        forall|i: int| 0 <= i < l.len() ==> #[trigger] l[i] != '\n',
    ensures
        lines_of(l) == seq![l],
{
    lemma_line_end_bounds(l, 0);
    if line_end(l, 0) < l.len() {
        assert(l[line_end(l, 0)] == '\n');
    }
    assert(l.subrange(0, l.len() as int) =~= l);
}

fn find_line_end(cs: &[char], p: usize) -> (r: usize)
    requires
        p <= cs@.len(),
    ensures
        r == line_end(cs@, p as int),
        p <= r <= cs@.len(),
{
    let n = cs.len();
    let mut k = p;
    while k < n
        invariant
            n == cs@.len(),
            p <= k <= n,
            line_end(cs@, p as int) == line_end(cs@, k as int),
        decreases n - k,
    {
        if cs[k] == '\n' {
            return k;
        }
        k = k + 1;
    }
    k
}

/// The lines of `cs`, each as (start, end) char positions.
pub fn line_spans(cs: &[char]) -> (r: Vec<(usize, usize)>)
    ensures
        r@.len() == lines_of(cs@).len(),
        forall|i: int| 0 <= i < r@.len() ==> (#[trigger] r@[i]).0 <= r@[i].1 <= cs@.len(),
        forall|i: int|
            0 <= i < r@.len() ==> #[trigger] lines_of(cs@)[i] == cs@.subrange(
                r@[i].0 as int,
                r@[i].1 as int,
            ),
{
    let n = cs.len();
    let mut r: Vec<(usize, usize)> = Vec::new();
    let mut p: usize = 0;
    let ghost mut done: Seq<Seq<char>> = Seq::empty();
    while p < n
        invariant
            n == cs@.len(),
            p <= n,
            done.len() == r@.len(),
            forall|i: int| 0 <= i < r@.len() ==> (#[trigger] r@[i]).0 <= r@[i].1 <= n,
            forall|i: int|
                0 <= i < r@.len() ==> #[trigger] done[i] == cs@.subrange(
                    r@[i].0 as int,
                    r@[i].1 as int,
                ),
            lines_of(cs@) == done + lines_from(cs@, p as int),
        decreases n - p,
    {
        let e = find_line_end(cs, p);
        proof {
            lemma_line_end_bounds(cs@, p as int);
        }
        let ghost rest = lines_from(cs@, p as int);
        let ghost old_done = done;
        let ghost old_r = r@;
        if e >= n {
            r.push((p, n));
            proof {
                done = done.push(cs@.subrange(p as int, n as int));
            }
            assert(rest == seq![cs@.subrange(p as int, n as int)]);
            p = n;
            assert(lines_from(cs@, p as int) =~= Seq::<Seq<char>>::empty());
            assert(lines_of(cs@) =~= done + lines_from(cs@, p as int));
        } else {
            let end = if e > p && cs[e - 1] == '\r' {
                e - 1
            } else {
                e
            };
            assert(cs@.subrange(p as int, end as int) == strip_cr(cs@.subrange(p as int, e as int)))
                by {
                if e > p && cs@[e - 1] == '\r' {
                    assert(cs@.subrange(p as int, e - 1) =~= cs@.subrange(p as int, e as int).drop_last());
                }
            }
            r.push((p, end));
            proof {
                done = done.push(cs@.subrange(p as int, end as int));
            }
            assert(rest == seq![strip_cr(cs@.subrange(p as int, e as int))] + lines_from(
                cs@,
                e + 1,
            ));
            p = e + 1;
            assert(lines_of(cs@) =~= done + lines_from(cs@, p as int));
        }
        assert forall|i: int| 0 <= i < r@.len() implies (#[trigger] r@[i]).0 <= r@[i].1 <= n
            && done[i] == cs@.subrange(r@[i].0 as int, r@[i].1 as int) by {
            if i < old_done.len() {
                assert(done[i] == old_done[i]);
                assert(r@[i] == old_r[i]);
                assert(old_r[i].0 <= old_r[i].1);
            } else {
                assert(i == old_r.len());
                assert(r@[i].0 <= r@[i].1);
            }
        }
    }
    assert(lines_from(cs@, p as int) =~= Seq::<Seq<char>>::empty());
    assert(lines_of(cs@) =~= done);
    assert forall|i: int| 0 <= i < r@.len() implies (#[trigger] r@[i]).0 <= r@[i].1 <= cs@.len()
        && lines_of(cs@)[i] == cs@.subrange(r@[i].0 as int, r@[i].1 as int) by {
        assert(done[i] == cs@.subrange(r@[i].0 as int, r@[i].1 as int));
    }
    r
}

} // verus!
