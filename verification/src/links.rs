use vstd::prelude::*;

verus! {

// The link markup of a line is `[label]`: an opening bracket, then the
// shortest run of chars other than a line feed that reaches a closing
// bracket. Links are taken from left to right and never overlap.

/// The first `]` at or after `j`, provided no line feed comes before it.
pub open spec fn close_bracket(s: Seq<char>, j: int) -> Option<int>
    decreases s.len() - j,
{
    if j < 0 || j >= s.len() {
        None
    } else if s[j] == ']' {
        Some(j)
    } else if s[j] == '\n' {
        None
    } else {
        close_bracket(s, j + 1)
    }
}

/// The end (exclusive) of the link that starts at `i`, if one does.
pub open spec fn link_at(s: Seq<char>, i: int) -> Option<int> {
    if 0 <= i < s.len() && s[i] == '[' {
        match close_bracket(s, i + 1) {
            Some(j) => Some(j + 1),
            None => None,
        }
    } else {
        None
    }
}

/// The leftmost link that starts at or after `i`, as (start, end).
pub open spec fn next_link(s: Seq<char>, i: int) -> Option<(int, int)>
    decreases s.len() - i,
{
    if i < 0 || i >= s.len() {
        None
    } else {
        match link_at(s, i) {
            Some(e) => Some((i, e)),
            None => next_link(s, i + 1),
        }
    }
}

/// All links of `s` at or after `p`, from left to right, as (start, end).
pub open spec fn links_from(s: Seq<char>, p: int) -> Seq<(int, int)>
    decreases s.len() - p,
    via links_from_decreases
{
    match next_link(s, p) {
        Some((i, e)) => seq![(i, e)] + links_from(s, e),
        None => Seq::empty(),
    }
}

#[via_fn]
proof fn links_from_decreases(s: Seq<char>, p: int) {
    if let Some((i, e)) = next_link(s, p) {
        lemma_next_link_bounds(s, p);
    }
}

/// All links of `s`.
pub open spec fn links(s: Seq<char>) -> Seq<(int, int)> {
    links_from(s, 0)
}

pub proof fn lemma_close_bracket_bounds(s: Seq<char>, j: int)
    ensures
        close_bracket(s, j) matches Some(k) ==> j <= k < s.len() && s[k] == ']',
    decreases s.len() - j,
{
    if 0 <= j < s.len() && s[j] != ']' && s[j] != '\n' {
        lemma_close_bracket_bounds(s, j + 1);
    }
}

pub proof fn lemma_next_link_bounds(s: Seq<char>, i: int)
    ensures
        next_link(s, i) matches Some((a, e)) ==> {
            &&& 0 <= i <= a
            &&& a + 2 <= e <= s.len()
            &&& s[a] == '['
            &&& s[e - 1] == ']'
        },
    decreases s.len() - i,
{
    if 0 <= i < s.len() {
        lemma_close_bracket_bounds(s, i + 1);
        if link_at(s, i) is None {
            lemma_next_link_bounds(s, i + 1);
        }
    }
}


/// `m` is a list of non-overlapping, left-to-right spans inside `s`, all at
/// or after `p`, each at least two chars long.
pub open spec fn spans_ordered(s: Seq<char>, m: Seq<(int, int)>, p: int) -> bool {
    &&& forall|i: int| 0 <= i < m.len() ==> p <= #[trigger] m[i].0 && m[i].0 + 2 <= m[i].1 <= s.len()
    &&& forall|i: int| 0 <= i < m.len() - 1 ==> #[trigger] m[i].1 <= m[i + 1].0
}

pub proof fn lemma_links_from_ordered(s: Seq<char>, p: int)
    requires
        0 <= p,
    ensures
        spans_ordered(s, links_from(s, p), p),
        forall|i: int|
            0 <= i < links_from(s, p).len() ==> s[#[trigger] links_from(s, p)[i].0] == '[' && s[
                links_from(s, p)[i].1 - 1] == ']',
    decreases s.len() - p,
{
    lemma_next_link_bounds(s, p);
    if let Some((a, e)) = next_link(s, p) {
        lemma_links_from_ordered(s, e);
        let rest = links_from(s, e);
        let all = links_from(s, p);
        assert(all == seq![(a, e)] + rest);
        assert forall|i: int| 0 <= i < all.len() implies p <= #[trigger] all[i].0 && all[i].0 + 2
            <= all[i].1 <= s.len() && s[all[i].0] == '[' && s[all[i].1 - 1] == ']' by {
            if i > 0 {
                assert(all[i] == rest[i - 1]);
            }
        }
        assert forall|i: int| 0 <= i < all.len() - 1 implies #[trigger] all[i].1 <= all[i + 1].0 by {
            assert(all[i + 1] == rest[i]);
            if i > 0 {
                assert(all[i] == rest[i - 1]);
            }
        }
    }
}

/// Index pairs widened to `int`.
pub open spec fn spans(v: Seq<(usize, usize)>) -> Seq<(int, int)> {
    v.map_values(|m: (usize, usize)| (m.0 as int, m.1 as int))
}

fn find_close_bracket(cs: &[char], j: usize) -> (r: Option<usize>)
    requires
        j >= 1,
    ensures
        r matches Some(k) ==> close_bracket(cs@, j as int) == Some(k as int) && k < cs@.len(),
        r is None ==> close_bracket(cs@, j as int) is None,
{
    let n = cs.len();
    let mut k = j;
    while k < n
        invariant
            n == cs@.len(),
            1 <= j <= k,
            close_bracket(cs@, j as int) == close_bracket(cs@, k as int),
        decreases n - k,
    {
        if cs[k] == ']' {
            return Some(k);
        }
        if cs[k] == '\n' {
            return None;
        }
        k = k + 1;
    }
    None
}

fn find_next_link(cs: &[char], p: usize) -> (r: Option<(usize, usize)>)
    ensures
        r matches Some((a, e)) ==> next_link(cs@, p as int) == Some((a as int, e as int)),
        r is None ==> next_link(cs@, p as int) is None,
{
    let n = cs.len();
    let mut i = p;
    while i < n
        invariant
            n == cs@.len(),
            p <= i,
            next_link(cs@, p as int) == next_link(cs@, i as int),
        decreases n - i,
    {
        if cs[i] == '[' {
            if let Some(k) = find_close_bracket(cs, i + 1) {
                return Some((i, k + 1));
            }
        }
        i = i + 1;
    }
    None
}

/// All links of `cs`, from left to right, as (start, end) index pairs.
pub fn find_links(cs: &[char]) -> (r: Vec<(usize, usize)>)
    ensures
        spans(r@) == links(cs@),
{
    let n = cs.len();
    let mut r: Vec<(usize, usize)> = Vec::new();
    let mut p: usize = 0;
    loop
        invariant
            n == cs@.len(),
            p <= n,
            spans(r@) + links_from(cs@, p as int) == links(cs@),
        decreases n - p,
    {
        match find_next_link(cs, p) {
            None => {
                assert(spans(r@) =~= spans(r@) + links_from(cs@, p as int));
                return r;
            },
            Some((a, e)) => {
                proof {
                    lemma_next_link_bounds(cs@, p as int);
                }
                let ghost old_r = r@;
                r.push((a, e));
                assert(spans(r@) =~= spans(old_r) + seq![(a as int, e as int)]);
                assert(links_from(cs@, p as int) == seq![(a as int, e as int)] + links_from(
                    cs@,
                    e as int,
                ));
                assert(spans(r@) + links_from(cs@, e as int) =~= spans(old_r) + links_from(
                    cs@,
                    p as int,
                ));
                p = e;
            },
        }
    }
}

} // verus!
