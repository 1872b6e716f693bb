use vstd::prelude::*;
use crate::text::{chars_of, copy_range, string_of};

verus! {

// The address markup is `(address)`: an opening parenthesis, then one or
// more chars none of which is white space, then a closing parenthesis. Of
// the candidates that start at one opening parenthesis the longest is
// taken; matches are taken from left to right and never overlap.

/// The chars that Unicode gives the White_Space property.
pub open spec fn is_white_space(c: char) -> bool {
    ||| ('\t' <= c && c <= '\r')
    ||| c == ' '
    ||| c == '\u{85}'
    ||| c == '\u{a0}'
    ||| c == '\u{1680}'
    ||| ('\u{2000}' <= c && c <= '\u{200a}')
    ||| c == '\u{2028}'
    ||| c == '\u{2029}'
    ||| c == '\u{202f}'
    ||| c == '\u{205f}'
    ||| c == '\u{3000}'
}

/// The end of the run of non-white-space chars that starts at `p`.
pub open spec fn run_end(s: Seq<char>, p: int) -> int
    decreases s.len() - p,
{
    if p < 0 || p >= s.len() {
        s.len() as int
    } else if is_white_space(s[p]) {
        p
    } else {
        run_end(s, p + 1)
    }
}

/// The last `)` in `s[lo..hi]`.
pub open spec fn last_close_paren(s: Seq<char>, lo: int, hi: int) -> Option<int>
    decreases hi - lo,
{
    if hi <= lo {
        None
    } else if s[hi - 1] == ')' {
        Some(hi - 1)
    } else {
        last_close_paren(s, lo, hi - 1)
    }
}

/// The end (exclusive) of the address markup that starts at `i`, if one does.
pub open spec fn paren_at(s: Seq<char>, i: int) -> Option<int> {
    if 0 <= i < s.len() && s[i] == '(' {
        match last_close_paren(s, i + 2, run_end(s, i + 1)) {
            Some(j) => Some(j + 1),
            None => None,
        }
    } else {
        None
    }
}

/// The leftmost address markup that starts at or after `i`, as (start, end).
pub open spec fn next_paren(s: Seq<char>, i: int) -> Option<(int, int)>
    decreases s.len() - i,
{
    if i < 0 || i >= s.len() {
        None
    } else {
        match paren_at(s, i) {
            Some(e) => Some((i, e)),
            None => next_paren(s, i + 1),
        }
    }
}

/// All address markups of `s` at or after `p`, from left to right.
pub open spec fn parens_from(s: Seq<char>, p: int) -> Seq<(int, int)>
    decreases s.len() - p,
    via parens_from_decreases
{
    match next_paren(s, p) {
        Some((i, e)) => seq![(i, e)] + parens_from(s, e),
        None => Seq::empty(),
    }
}

#[via_fn]
proof fn parens_from_decreases(s: Seq<char>, p: int) {
    if let Some((i, e)) = next_paren(s, p) {
        lemma_next_paren_bounds(s, p);
    }
}

/// All address markups of `s`.
pub open spec fn parens(s: Seq<char>) -> Seq<(int, int)> {
    parens_from(s, 0)
}

/// The address that `s` names: the inside of its address markup when it has
/// exactly one.
pub open spec fn url_of(s: Seq<char>) -> Option<Seq<char>> {
    let m = parens(s);
    if m.len() == 1 {
        Some(s.subrange(m[0].0 + 1, m[0].1 - 1))
    } else {
        None
    }
}

/// `s` with its first address markup taken out.
pub open spec fn without_first_paren(s: Seq<char>) -> Seq<char> {
    match next_paren(s, 0) {
        Some((i, e)) => s.take(i) + s.skip(e),
        None => s,
    }
}

pub proof fn lemma_run_end_bounds(s: Seq<char>, p: int)
    requires
        0 <= p <= s.len(),
    ensures
        p <= run_end(s, p) <= s.len(),
        forall|k: int| p <= k < run_end(s, p) ==> !is_white_space(#[trigger] s[k]),
    decreases s.len() - p,
{
    if 0 <= p < s.len() && !is_white_space(s[p]) {
        lemma_run_end_bounds(s, p + 1);
    }
}

pub proof fn lemma_last_close_paren_bounds(s: Seq<char>, lo: int, hi: int)
    ensures
        last_close_paren(s, lo, hi) matches Some(j) ==> lo <= j < hi && s[j] == ')',
    decreases hi - lo,
{
    if hi > lo && s[hi - 1] != ')' {
        lemma_last_close_paren_bounds(s, lo, hi - 1);
    }
}

pub proof fn lemma_next_paren_bounds(s: Seq<char>, i: int)
    ensures
        next_paren(s, i) matches Some((a, e)) ==> {
            &&& 0 <= i <= a
            &&& a + 3 <= e <= s.len()
            &&& s[a] == '('
            &&& s[e - 1] == ')'
        },
    decreases s.len() - i,
{
    if 0 <= i < s.len() {
        lemma_run_end_bounds(s, i + 1);
        lemma_last_close_paren_bounds(s, i + 2, run_end(s, i + 1));
        if run_end(s, i + 1) <= i + 1 {
            assert(last_close_paren(s, i + 2, run_end(s, i + 1)) is None);
        }
        if paren_at(s, i) is None {
            lemma_next_paren_bounds(s, i + 1);
        }
    }
}

/// Whether `c` is white space in the sense of Unicode.
pub fn is_white_space_char(c: char) -> (r: bool)
    ensures
        r == is_white_space(c),
{
    ('\t' <= c && c <= '\r') || c == ' ' || c == '\u{85}' || c == '\u{a0}' || c == '\u{1680}' || (
    '\u{2000}' <= c && c <= '\u{200a}') || c == '\u{2028}' || c == '\u{2029}' || c == '\u{202f}'
        || c == '\u{205f}' || c == '\u{3000}'
}

fn find_run_end(cs: &[char], p: usize) -> (r: usize)
    requires
        p <= cs@.len(),
    ensures
        r == run_end(cs@, p as int),
        p <= r <= cs@.len(),
{
    let n = cs.len();
    let mut k = p;
    while k < n
        invariant
            n == cs@.len(),
            p <= k <= n,
            run_end(cs@, p as int) == run_end(cs@, k as int),
        decreases n - k,
    {
        if is_white_space_char(cs[k]) {
            return k;
        }
        k = k + 1;
    }
    k
}

fn find_last_close_paren(cs: &[char], lo: usize, hi: usize) -> (r: Option<usize>)
    requires
        hi <= cs@.len(),
    ensures
        r matches Some(j) ==> last_close_paren(cs@, lo as int, hi as int) == Some(j as int) && j
            < hi,
        r is None ==> last_close_paren(cs@, lo as int, hi as int) is None,
{
    let mut h = hi;
    while h > lo
        invariant
            h <= hi <= cs@.len(),
            last_close_paren(cs@, lo as int, hi as int) == last_close_paren(
                cs@,
                lo as int,
                h as int,
            ),
        decreases h,
    {
        if cs[h - 1] == ')' {
            return Some(h - 1);
        }
        h = h - 1;
    }
    None
}

fn find_next_paren(cs: &[char], p: usize) -> (r: Option<(usize, usize)>)
    ensures
        r matches Some((a, e)) ==> next_paren(cs@, p as int) == Some((a as int, e as int)),
        r is None ==> next_paren(cs@, p as int) is None,
{
    let n = cs.len();
    let mut i = p;
    while i < n
        invariant
            n == cs@.len(),
            p <= i,
            next_paren(cs@, p as int) == next_paren(cs@, i as int),
        decreases n - i,
    {
        if cs[i] == '(' {
            let re = find_run_end(cs, i + 1);
            if re > i + 1 {
                if let Some(j) = find_last_close_paren(cs, i + 2, re) {
                    return Some((i, j + 1));
                }
            }
        }
        i = i + 1;
    }
    None
}

/// All address markups of `cs`, from left to right, as (start, end) index pairs.
pub fn find_parens(cs: &[char]) -> (r: Vec<(usize, usize)>)
    ensures
        crate::links::spans(r@) == parens(cs@),
{
    let n = cs.len();
    let mut r: Vec<(usize, usize)> = Vec::new();
    let mut p: usize = 0;
    loop
        invariant
            n == cs@.len(),
            p <= n,
            crate::links::spans(r@) + parens_from(cs@, p as int) == parens(cs@),
        decreases n - p,
    {
        match find_next_paren(cs, p) {
            None => {
                assert(crate::links::spans(r@) =~= crate::links::spans(r@) + parens_from(
                    cs@,
                    p as int,
                ));
                return r;
            },
            Some((a, e)) => {
                proof {
                    lemma_next_paren_bounds(cs@, p as int);
                }
                let ghost old_r = r@;
                r.push((a, e));
                assert(crate::links::spans(r@) =~= crate::links::spans(old_r) + seq![
                    (a as int, e as int),
                ]);
                assert(parens_from(cs@, p as int) == seq![(a as int, e as int)] + parens_from(
                    cs@,
                    e as int,
                ));
                assert(crate::links::spans(r@) + parens_from(cs@, e as int)
                    =~= crate::links::spans(old_r) + parens_from(cs@, p as int));
                p = e;
            },
        }
    }
}

/// The address that `cs` names, when it holds exactly one address markup.
pub fn url_in_chars(cs: &[char]) -> (r: Option<Vec<char>>)
    ensures
        r matches Some(u) ==> url_of(cs@) == Some(u@),
        r is None ==> url_of(cs@) is None,
{
    let m = find_parens(cs);
    if m.len() == 1 {
        let (a, e) = m[0];
        proof {
            assert(crate::links::spans(m@)[0] == (a as int, e as int));
            lemma_next_paren_bounds(cs@, 0);
        }
        Some(copy_range(cs, a + 1, e - 1))
    } else {
        None
    }
}

/// `cs` with its first address markup taken out.
pub fn remove_first_url(cs: &[char]) -> (r: Vec<char>)
    ensures
        r@ == without_first_paren(cs@),
{
    match find_next_paren(cs, 0) {
        None => copy_range(cs, 0, cs.len()),
        Some((a, e)) => {
            proof {
                lemma_next_paren_bounds(cs@, 0);
            }
            let mut r = copy_range(cs, 0, a);
            let tail = copy_range(cs, e, cs.len());
            let mut k: usize = 0;
            let ghost head = r@;
            while k < tail.len()
                invariant
                    r@ == head + tail@.take(k as int),
                    k <= tail@.len(),
                decreases tail.len() - k,
            {
                r.push(tail[k]);
                k = k + 1;
                assert(r@ =~= head + tail@.take(k as int));
            }
            assert(r@ =~= cs@.take(a as int) + cs@.skip(e as int));
            r
        },
    }
}

/// The address that `text` names: the inside of its `(address)` markup, when
/// it holds exactly one.
pub fn get_url(text: &str) -> (r: Option<String>)
    ensures
        r matches Some(u) ==> url_of(text@) == Some(u@),
        r is None ==> url_of(text@) is None,
{
    let cs = chars_of(text);
    match url_in_chars(cs.as_slice()) {
        Some(u) => Some(string_of(u.as_slice())),
        None => None,
    }
}

} // verus!
