//! The search filter: SQL `LIKE` matching (`%` any run, `_` any one character,
//! ASCII letters compared without case), used as `text LIKE '%' || query || '%'`.
use vstd::prelude::*;

use crate::text::{ascii_lower, ascii_lower_char};

verus! {

/// Pattern character `pc` matches text character `tc`.
pub open spec fn like_char_matches(pc: char, tc: char) -> bool {
    pc == '_' || ascii_lower(pc) == ascii_lower(tc)
}

/// Whether `p[i..]` matches `t[j..]` under `LIKE` rules.
pub open spec fn like_at(p: Seq<char>, t: Seq<char>, i: int, j: int) -> bool
    decreases p.len() - i, t.len() - j,
{
    if i >= p.len() {
        j >= t.len()
    } else if p[i] == '%' {
        like_at(p, t, i + 1, j) || (j < t.len() && like_at(p, t, i, j + 1))
    } else if j >= t.len() {
        false
    } else {
        like_char_matches(p[i], t[j]) && like_at(p, t, i + 1, j + 1)
    }
}

/// `t LIKE p`.
pub open spec fn like(p: Seq<char>, t: Seq<char>) -> bool {
    like_at(p, t, 0, 0)
}

/// The pattern `'%' || q || '%'`.
pub open spec fn contains_pattern(q: Seq<char>) -> Seq<char> {
    seq!['%'] + q + seq!['%']
}

/// A `%` ending the pattern matches whatever is left of the text.
proof fn lemma_trailing_any(p: Seq<char>, t: Seq<char>, j: int)
    requires
        p.len() > 0,
        p[p.len() - 1] == '%',
        0 <= j <= t.len(),
    ensures
        like_at(p, t, p.len() - 1, j),
    decreases t.len() - j,
{
    assert(like_at(p, t, p.len() as int, t.len() as int));
    if j < t.len() {
        lemma_trailing_any(p, t, j + 1);
    }
}

/// The query part of `'%' || q || '%'` matches the copy of `q` in `a + q + b`.
proof fn lemma_query_run(q: Seq<char>, a: Seq<char>, b: Seq<char>, k: int)
    requires
        0 <= k <= q.len(),
    ensures
        like_at(contains_pattern(q), a + q + b, 1 + k, a.len() + k),
    decreases q.len() - k,
{
    let p = contains_pattern(q);
    let t = a + q + b;
    if k == q.len() {
        lemma_trailing_any(p, t, (a.len() + q.len()) as int);
    } else {
        lemma_query_run(q, a, b, k + 1);
        assert(p[1 + k] == q[k]);
        assert(t[a.len() + k] == q[k]);
        if q[k] == '%' {
            assert(like_at(p, t, 1 + k, a.len() + k + 1));
        } else {
            assert(like_char_matches(q[k], q[k]));
        }
    }
}

/// The leading `%` of `'%' || q || '%'` steps over any text before the query.
proof fn lemma_leading_any(q: Seq<char>, a: Seq<char>, b: Seq<char>, j: int)
    requires
        0 <= j <= a.len(),
    ensures
        like_at(contains_pattern(q), a + q + b, 0, j),
    decreases a.len() - j,
{
    if j == a.len() {
        lemma_query_run(q, a, b, 0);
    } else {
        lemma_leading_any(q, a, b, j + 1);
    }
}

/// The search finds a query wherever it occurs in a text, whatever characters come
/// before and after it (line breaks included), and the bare pattern `%` matches every
/// text.
pub proof fn query_found_anywhere(q: Seq<char>, a: Seq<char>, b: Seq<char>)
    ensures
        like(contains_pattern(q), a + q + b),
        like(seq!['%'], a),
{
    lemma_leading_any(q, a, b, 0);
    lemma_trailing_any(seq!['%'], a, 0);
}

/// Builds the pattern `'%' || q || '%'`.
pub fn contains_pattern_of(q: &Vec<char>) -> (p: Vec<char>)
    ensures
        p@ == contains_pattern(q@),
{
    let mut p: Vec<char> = Vec::new();
    p.push('%');
    let mut i: usize = 0;
    while i < q.len()
        invariant
            i <= q@.len(),
            p@ == seq!['%'] + q@.take(i as int),
        decreases q.len() - i,
    {
        p.push(q[i]);
        assert(q@.take(i + 1) =~= q@.take(i as int).push(q@[i as int]));
        assert(p@ =~= seq!['%'] + q@.take(i + 1));
        i = i + 1;
    }
    p.push('%');
    assert(q@.take(q@.len() as int) =~= q@);
    assert(p@ =~= contains_pattern(q@));
    p
}

/// Decides `t LIKE p` by dynamic programming over suffixes.
pub fn like_matches(p: &Vec<char>, t: &Vec<char>) -> (b: bool)
    ensures
        b == like(p@, t@),
{
    let m = p.len();
    let n = t.len();
    // next[j] == like_at(p, t, i + 1, j) for the row below the current one
    let mut next: Vec<bool> = Vec::new();
    let mut j: usize = 0;
    while j < n
        invariant
            m == p@.len(),
            n == t@.len(),
            j <= n,
            next@.len() == j,
            forall|k: int| 0 <= k < j ==> #[trigger] next@[k] == like_at(p@, t@, m as int, k),
        decreases n - j,
    {
        next.push(false);
        j = j + 1;
    }
    next.push(true);
    let mut i: usize = m;
    while i > 0
        invariant
            m == p@.len(),
            n == t@.len(),
            i <= m,
            next@.len() == n + 1,
            forall|k: int| 0 <= k <= n ==> #[trigger] next@[k] == like_at(p@, t@, i as int, k),
        decreases i,
    {
        let pi = i - 1;
        let pc = p[pi];
        let mut cur: Vec<bool> = Vec::new();
        let mut k: usize = 0;
        while k < n
            invariant
                k <= n,
                cur@.len() == k,
                forall|q: int| 0 <= q < k ==> #[trigger] cur@[q] == false,
            decreases n - k,
        {
            cur.push(false);
            k = k + 1;
        }
        cur.push(false);
        if pc == '%' {
            let last = next[n];
            cur.set(n, last);
            let mut jj: usize = n;
            while jj > 0
                invariant
                    m == p@.len(),
                    n == t@.len(),
                    pi < m,
                    p@[pi as int] == '%',
                    jj <= n,
                    cur@.len() == n + 1,
                    next@.len() == n + 1,
                    forall|k: int| 0 <= k <= n ==> #[trigger] next@[k] == like_at(p@, t@, pi + 1, k),
                    forall|k: int| jj <= k <= n ==> #[trigger] cur@[k] == like_at(p@, t@, pi as int, k),
                decreases jj,
            {
                let c = jj - 1;
                let v = next[c] || cur[jj];
                cur.set(c, v);
                jj = c;
            }
        } else {
            let mut jj: usize = n;
            while jj > 0
                invariant
                    m == p@.len(),
                    n == t@.len(),
                    pi < m,
                    p@[pi as int] == pc,
                    pc != '%',
                    jj <= n,
                    cur@.len() == n + 1,
                    next@.len() == n + 1,
                    cur@[n as int] == false,
                    forall|k: int| 0 <= k <= n ==> #[trigger] next@[k] == like_at(p@, t@, pi + 1, k),
                    forall|k: int| jj <= k <= n ==> #[trigger] cur@[k] == like_at(p@, t@, pi as int, k),
                decreases jj,
            {
                let c = jj - 1;
                let tc = t[c];
                let v = (pc == '_' || ascii_lower_char(pc) == ascii_lower_char(tc)) && next[jj];
                cur.set(c, v);
                jj = c;
            }
        }
        next = cur;
        i = pi;
    }
    next[0]
}

} // verus!
