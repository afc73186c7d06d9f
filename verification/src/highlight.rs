//! Keyword highlighting in search results: the byte ranges of a passage that
//! match the whitespace-separated terms of a query, ignoring ASCII case.
use vstd::prelude::*;
use vstd::string::StringSliceAdditionalSpecFns;

verus! {

/// ASCII lowercase of one byte; other bytes are unchanged, so byte offsets are kept.
pub open spec fn ascii_lower(c: u8) -> u8 {
    if 65 <= c <= 90 {
        (c + 32) as u8
    } else {
        c
    }
}

pub open spec fn lower_bytes(b: Seq<u8>) -> Seq<u8> {
    b.map_values(|c: u8| ascii_lower(c))
}

/// The length of the UTF-8 encoding of a Unicode `White_Space` character that
/// starts at `i`, or 0 when none starts there. These are the characters that
/// `str::split_whitespace` separates on: U+0009 to U+000D, U+0020, U+0085, U+00A0,
/// U+1680, U+2000 to U+200A, U+2028, U+2029, U+202F, U+205F and U+3000.
pub open spec fn ws_width(b: Seq<u8>, i: int) -> int {
    if 0 <= i < b.len() && (b[i] == 32 || (9 <= b[i] <= 13)) {
        1
    } else if 0 <= i && i + 1 < b.len() && b[i] == 0xc2 && (b[i + 1] == 0x85 || b[i + 1] == 0xa0) {
        2
    } else if 0 <= i && i + 2 < b.len() && b[i] == 0xe1 && b[i + 1] == 0x9a && b[i + 2] == 0x80 {
        3
    } else if 0 <= i && i + 2 < b.len() && b[i] == 0xe2 && b[i + 1] == 0x80 && ((0x80 <= b[i + 2]
        <= 0x8a) || b[i + 2] == 0xa8 || b[i + 2] == 0xa9 || b[i + 2] == 0xaf) {
        3
    } else if 0 <= i && i + 2 < b.len() && b[i] == 0xe2 && b[i + 1] == 0x81 && b[i + 2] == 0x9f {
        3
    } else if 0 <= i && i + 2 < b.len() && b[i] == 0xe3 && b[i + 1] == 0x80 && b[i + 2] == 0x80 {
        3
    } else {
        0
    }
}

/// The first position at or after `i` where a whitespace character starts, or the end.
pub open spec fn next_ws(b: Seq<u8>, i: int) -> int
    decreases b.len() - i,
{
    if i >= b.len() || i < 0 {
        b.len() as int
    } else if ws_width(b, i) > 0 {
        i
    } else {
        next_ws(b, i + 1)
    }
}

pub proof fn lemma_next_ws(b: Seq<u8>, i: int)
    requires
        0 <= i <= b.len(),
    ensures
        i <= next_ws(b, i) <= b.len(),
        next_ws(b, i) < b.len() ==> ws_width(b, next_ws(b, i)) > 0,
        forall|k: int| i <= k < next_ws(b, i) ==> ws_width(b, k) == 0,
    decreases b.len() - i,
{
    if i < b.len() && ws_width(b, i) == 0 {
        lemma_next_ws(b, i + 1);
    }
}

/// The terms of `b[i..]` as `split_whitespace` yields them: the maximal non-empty
/// stretches that contain no whitespace character.
pub open spec fn terms_from(b: Seq<u8>, i: int) -> Seq<Seq<u8>>
    decreases b.len() - i,
{
    if i >= b.len() || i < 0 {
        seq![]
    } else if ws_width(b, i) > 0 {
        terms_from(b, i + ws_width(b, i))
    } else {
        let e = next_ws(b, i + 1);
        proof {
            lemma_next_ws(b, i + 1);
        }
        seq![b.subrange(i, e)] + terms_from(b, e)
    }
}

/// `p` occurs in `h` at position `i`.
pub open spec fn occurs_at(h: Seq<u8>, p: Seq<u8>, i: int) -> bool {
    0 <= i && i + p.len() <= h.len() && h.subrange(i, i + p.len()) == p
}

/// The starts of the non-overlapping occurrences of `p` in `h[i..]`, found left
/// to right as `str::match_indices` finds them.
pub open spec fn matches_from(h: Seq<u8>, p: Seq<u8>, i: int) -> Seq<int>
    decreases h.len() - i,
{
    if p.len() == 0 || i < 0 || i + p.len() > h.len() {
        seq![]
    } else if occurs_at(h, p, i) {
        seq![i] + matches_from(h, p, i + p.len())
    } else {
        matches_from(h, p, i + 1)
    }
}

/// Position `x` of `h` lies inside one of the matches of `p`.
pub open spec fn covered_by(h: Seq<u8>, p: Seq<u8>, x: int) -> bool {
    exists|k: int|
        0 <= k < matches_from(h, p, 0).len() && #[trigger] matches_from(h, p, 0)[k] <= x
            < matches_from(h, p, 0)[k] + p.len()
}

/// Position `x` of `h` lies inside a match of one of `terms`.
pub open spec fn covered_by_any(h: Seq<u8>, terms: Seq<Seq<u8>>, x: int) -> bool {
    exists|j: int| 0 <= j < terms.len() && covered_by(h, #[trigger] terms[j], x)
}

/// Position `x` of `text` is highlighted for `query`.
pub open spec fn keyword_covered(text: Seq<u8>, query: Seq<u8>, x: int) -> bool {
    covered_by_any(lower_bytes(text), terms_from(lower_bytes(query), 0), x)
}

/// `r` lists, in order, the maximal runs of `true` in `cov`, each as a half-open range.
pub open spec fn are_maximal_runs(r: Seq<(usize, usize)>, cov: Seq<bool>) -> bool {
    &&& forall|k: int| 0 <= k < r.len() ==> #[trigger] r[k].0 < r[k].1 <= cov.len()
    &&& forall|k: int| 0 <= k < r.len() - 1 ==> #[trigger] r[k].1 < r[k + 1].0
    &&& forall|k: int, x: int|
        #![trigger r[k], cov[x]]
        0 <= k < r.len() && r[k].0 <= x < r[k].1 ==> cov[x]
    &&& forall|k: int| 0 <= k < r.len() ==> (#[trigger] r[k].0 == 0 || !cov[r[k].0 - 1])
    &&& forall|k: int| 0 <= k < r.len() ==> (#[trigger] r[k].1 == cov.len() || !cov[r[k].1 as int])
    &&& forall|x: int|
        0 <= x < cov.len() && cov[x] ==> exists|k: int| 0 <= k < r.len() && #[trigger] r[k].0 <= x < r[k].1
}

/// The positions of `text` that `query` highlights.
pub open spec fn keyword_coverage(text: Seq<u8>, query: Seq<u8>) -> Seq<bool> {
    Seq::new(text.len(), |x: int| keyword_covered(text, query, x))
}

/// The byte ranges of `text` to highlight for `query`: every match of a query
/// term in the text, both folded to ASCII lowercase, with overlapping or touching
/// matches merged, sorted by position. Byte offsets are those of `text`.
pub fn highlight_keyword_ranges(text: &str, query: &str) -> (ranges: Vec<(usize, usize)>)
    ensures
        are_maximal_runs(ranges@, keyword_coverage(text.spec_bytes(), query.spec_bytes())),
{
    let t = text.as_bytes();
    let q = query.as_bytes();
    let folded = to_ascii_lowercase(t);
    let lq = to_ascii_lowercase(q);
    let n = folded.len();
    let mut cov: Vec<bool> = Vec::new();
    let mut z: usize = 0;
    while z < n
        invariant
            z <= n,
            cov@.len() == z,
            forall|x: int| 0 <= x < z ==> !cov@[x],
        decreases n - z,
    {
        cov.push(false);
        z = z + 1;
    }
    let ghost h = folded@;
    let ghost all_terms = terms_from(lq@, 0);
    let ghost mut done: Seq<Seq<u8>> = seq![];
    let mut i: usize = 0;
    while i < lq.len()
        invariant
            h == folded@,
            n == h.len(),
            all_terms == terms_from(lq@, 0),
            i <= lq@.len(),
            all_terms == done + terms_from(lq@, i as int),
            cov@.len() == n,
            forall|x: int| 0 <= x < n ==> cov@[x] == covered_by_any(h, done, x),
        decreases lq@.len() - i,
    {
        let w = ws_width_at(&lq, i);
        if w > 0 {
            i = i + w;
        } else {
            let mut e = i + 1;
            while e < lq.len() && ws_width_at(&lq, e) == 0
                invariant
                    i < e <= lq@.len(),
                    forall|k: int| i + 1 <= k < e ==> ws_width(lq@, k) == 0,
                decreases lq@.len() - e,
            {
                e = e + 1;
            }
            let ghost term = lq@.subrange(i as int, e as int);
            proof {
                lemma_next_ws(lq@, i + 1);
                lemma_next_ws_is(lq@, i + 1, e as int);
                assert(terms_from(lq@, i as int) == seq![term] + terms_from(lq@, e as int));
            }
            mark_matches(&mut cov, &folded, &lq, i, e);
            proof {
                let nd = done.push(term);
                assert(done + terms_from(lq@, i as int) =~= nd + terms_from(lq@, e as int));
                assert forall|x: int| 0 <= x < n implies cov@[x] == covered_by_any(h, nd, x) by {
                    if covered_by_any(h, nd, x) {
                        let j = choose|j: int| 0 <= j < nd.len() && covered_by(h, #[trigger] nd[j], x);
                        if j < done.len() {
                            assert(nd[j] == done[j]);
                        }
                    }
                    if covered_by_any(h, done, x) {
                        let j = choose|j: int| 0 <= j < done.len() && covered_by(h, #[trigger] done[j], x);
                        assert(nd[j] == done[j]);
                    }
                    if covered_by(h, term, x) {
                        assert(nd[nd.len() - 1] == term);
                    }
                }
                done = nd;
            }
            i = e;
        }
    }
    proof {
        assert(terms_from(lq@, i as int) =~= seq![]);
        assert(done =~= all_terms);
        assert(lower_bytes(t@) =~= h);
        assert(lower_bytes(q@) =~= lq@);
        assert(cov@ =~= keyword_coverage(text.spec_bytes(), query.spec_bytes()));
    }
    maximal_runs(&cov)
}

proof fn lemma_next_ws_is(b: Seq<u8>, i: int, e: int)
    requires
        0 <= i <= e <= b.len(),
        forall|k: int| i <= k < e ==> ws_width(b, k) == 0,
        e == b.len() || ws_width(b, e) > 0,
    ensures
        next_ws(b, i) == e,
    decreases e - i,
{
    if i < e {
        lemma_next_ws_is(b, i + 1, e);
    }
}

/// The bytes with ASCII letters folded to lowercase.
fn to_ascii_lowercase(b: &[u8]) -> (r: Vec<u8>)
    ensures
        r@ == lower_bytes(b@),
{
    let mut r: Vec<u8> = Vec::new();
    let mut i: usize = 0;
    while i < b.len()
        invariant
            i <= b@.len(),
            r@.len() == i,
            forall|k: int| 0 <= k < i ==> r@[k] == ascii_lower(b@[k]),
        decreases b@.len() - i,
    {
        let c = b[i];
        if 65 <= c && c <= 90 {
            r.push(c + 32);
        } else {
            r.push(c);
        }
        i = i + 1;
    }
    assert(r@ =~= lower_bytes(b@));
    r
}

/// Whether the text holds only whitespace (`s.trim().is_empty()`): it has no term.
pub fn is_blank(s: &str) -> (r: bool)
    ensures
        r == (terms_from(s.spec_bytes(), 0).len() == 0),
{
    let bytes = s.as_bytes();
    let mut b: Vec<u8> = Vec::new();
    crate::utf8_text::extend_from_range(&mut b, bytes, 0, bytes.len());
    proof {
        assert(b@ =~= s.spec_bytes());
    }
    let n = b.len();
    let mut i: usize = 0;
    while i < n
        invariant
            n == b@.len(),
            b@ == s.spec_bytes(),
            i <= n,
            terms_from(b@, 0) == terms_from(b@, i as int),
        decreases n - i,
    {
        let w = ws_width_at(&b, i);
        if w == 0 {
            return false;
        }
        i = i + w;
    }
    true
}

/// The width of the whitespace character starting at `i`, or 0.
fn ws_width_at(b: &Vec<u8>, i: usize) -> (w: usize)
    requires
        i < b@.len(),
    ensures
        w as int == ws_width(b@, i as int),
        w <= 3,
{
    let n = b.len();
    let c = b[i];
    if c == 32 || (9 <= c && c <= 13) {
        1
    } else if n - i > 1 && c == 0xc2 && (b[i + 1] == 0x85 || b[i + 1] == 0xa0) {
        2
    } else if n - i > 2 && c == 0xe1 && b[i + 1] == 0x9a && b[i + 2] == 0x80 {
        3
    } else if n - i > 2 && c == 0xe2 && b[i + 1] == 0x80 && ((0x80 <= b[i + 2] && b[i + 2] <= 0x8a)
        || b[i + 2] == 0xa8 || b[i + 2] == 0xa9 || b[i + 2] == 0xaf) {
        3
    } else if n - i > 2 && c == 0xe2 && b[i + 1] == 0x81 && b[i + 2] == 0x9f {
        3
    } else if n - i > 2 && c == 0xe3 && b[i + 1] == 0x80 && b[i + 2] == 0x80 {
        3
    } else {
        0
    }
}

/// Whether `p[lo..hi]` occurs in `h` at `at`.
fn occurs_at_exec(h: &Vec<u8>, p: &Vec<u8>, lo: usize, hi: usize, at: usize) -> (r: bool)
    requires
        lo <= hi <= p@.len(),
        at + (hi - lo) <= h@.len(),
    ensures
        r == occurs_at(h@, p@.subrange(lo as int, hi as int), at as int),
{
    let len = hi - lo;
    let mut k: usize = 0;
    while k < len
        invariant
            lo <= hi <= p@.len(),
            len == hi - lo,
            at + len <= h.len(),
            k <= len,
            forall|q: int| at <= q < at + k ==> #[trigger] h@[q] == p@[lo + q - at],
        decreases len - k,
    {
        if h[at + k] != p[lo + k] {
            proof {
                let pat = p@.subrange(lo as int, hi as int);
                assert(h@.subrange(at as int, at + len)[k as int] != pat[k as int]);
            }
            return false;
        }
        k = k + 1;
    }
    proof {
        let pat = p@.subrange(lo as int, hi as int);
        assert(h@.subrange(at as int, at + len) =~= pat);
    }
    true
}

/// Set `cov[x]` for every position `x` inside a match of `p[lo..hi]` in `h`.
fn mark_matches(cov: &mut Vec<bool>, h: &Vec<u8>, p: &Vec<u8>, lo: usize, hi: usize)
    requires
        lo < hi <= p@.len(),
        old(cov)@.len() == h@.len(),
    ensures
        final(cov)@.len() == old(cov)@.len(),
        forall|x: int|
            0 <= x < h@.len() ==> final(cov)@[x] == (old(cov)@[x] || covered_by(
                h@,
                p@.subrange(lo as int, hi as int),
                x,
            )),
{
    let ghost pat = p@.subrange(lo as int, hi as int);
    let plen = hi - lo;
    let n = h.len();
    let ghost mut found: Seq<int> = seq![];
    let mut at: usize = 0;
    while plen <= n && at <= n - plen
        invariant
            pat == p@.subrange(lo as int, hi as int),
            plen == pat.len(),
            plen > 0,
            lo < hi <= p@.len(),
            n == h@.len(),
            cov@.len() == n,
            old(cov)@.len() == n,
            at <= n,
            matches_from(h@, pat, 0) == found + matches_from(h@, pat, at as int),
            forall|k: int| 0 <= k < found.len() ==> #[trigger] found[k] + plen <= at,
            forall|x: int|
                0 <= x < n ==> cov@[x] == (old(cov)@[x] || exists|k: int|
                    0 <= k < found.len() && #[trigger] found[k] <= x < found[k] + plen),
        decreases n - at,
    {
        if occurs_at_exec(h, p, lo, hi, at) {
            let ghost before = cov@;
            let mut x = at;
            while x < at + plen
                invariant
                    at + plen <= n,
                    cov@.len() == n,
                    before.len() == n,
                    at <= x <= at + plen,
                    forall|y: int| 0 <= y < n ==> cov@[y] == (before[y] || (at <= y < x)),
                decreases at + plen - x,
            {
                cov.set(x, true);
                x = x + 1;
            }
            proof {
                let nf = found.push(at as int);
                assert(matches_from(h@, pat, at as int) == seq![at as int] + matches_from(
                    h@,
                    pat,
                    at + plen,
                ));
                assert(found + matches_from(h@, pat, at as int) =~= nf + matches_from(
                    h@,
                    pat,
                    at + plen,
                ));
                assert forall|y: int| 0 <= y < n implies cov@[y] == (old(cov)@[y] || exists|k: int|
                    0 <= k < nf.len() && #[trigger] nf[k] <= y < nf[k] + plen) by {
                    assert(before[y] == (old(cov)@[y] || exists|k: int|
                        0 <= k < found.len() && #[trigger] found[k] <= y < found[k] + plen));
                    if at <= y < at + plen {
                        assert(nf[nf.len() - 1] == at);
                    }
                    if exists|k: int| 0 <= k < nf.len() && #[trigger] nf[k] <= y < nf[k] + plen {
                        let k = choose|k: int| 0 <= k < nf.len() && #[trigger] nf[k] <= y < nf[k] + plen;
                        if k < found.len() {
                            assert(nf[k] == found[k]);
                        }
                    }
                    if exists|k: int| 0 <= k < found.len() && #[trigger] found[k] <= y < found[k] + plen {
                        let k = choose|k: int| 0 <= k < found.len() && #[trigger] found[k] <= y < found[k] + plen;
                        assert(nf[k] == found[k]);
                    }
                }
                found = nf;
            }
            at = at + plen;
        } else {
            at = at + 1;
        }
    }
    proof {
        assert(matches_from(h@, pat, at as int) =~= seq![]);
        assert(found + seq![] =~= found);
        assert forall|x: int| 0 <= x < n implies cov@[x] == (old(cov)@[x] || covered_by(h@, pat, x)) by {
            let m = matches_from(h@, pat, 0);
            assert(m == found);
            if covered_by(h@, pat, x) {
                let k = choose|k: int| 0 <= k < m.len() && #[trigger] m[k] <= x < m[k] + pat.len();
                assert(found[k] <= x < found[k] + plen);
            }
            if exists|k: int| 0 <= k < found.len() && #[trigger] found[k] <= x < found[k] + plen {
                let k = choose|k: int| 0 <= k < found.len() && #[trigger] found[k] <= x < found[k] + plen;
                assert(m[k] <= x < m[k] + pat.len());
            }
        }
    }
}

/// The maximal runs of `true` in `cov`, in order.
pub fn maximal_runs(cov: &Vec<bool>) -> (r: Vec<(usize, usize)>)
    ensures
        are_maximal_runs(r@, cov@),
{
    let n = cov.len();
    let mut r: Vec<(usize, usize)> = Vec::new();
    let mut open: Option<usize> = None;
    let mut i: usize = 0;
    while i < n
        invariant
            n == cov@.len(),
            i <= n,
            forall|k: int| 0 <= k < r@.len() ==> #[trigger] r@[k].0 < r@[k].1 <= i,
            forall|k: int| 0 <= k < r@.len() - 1 ==> #[trigger] r@[k].1 < r@[k + 1].0,
            forall|k: int, x: int|
                #![trigger r@[k], cov@[x]]
                0 <= k < r@.len() && r@[k].0 <= x < r@[k].1 ==> cov@[x],
            forall|k: int| 0 <= k < r@.len() ==> (#[trigger] r@[k].0 == 0 || !cov@[r@[k].0 - 1]),
            forall|k: int| 0 <= k < r@.len() ==> (#[trigger] r@[k].1 < n && !cov@[r@[k].1 as int]),
            match open {
                Some(s) => {
                    &&& s < i
                    &&& (s == 0 || !cov@[s - 1])
                    &&& forall|x: int| s <= x < i ==> cov@[x]
                    &&& r@.len() > 0 ==> r@[r@.len() - 1].1 < s
                    &&& forall|x: int|
                        0 <= x < s && cov@[x] ==> exists|k: int|
                            0 <= k < r@.len() && #[trigger] r@[k].0 <= x < r@[k].1
                },
                None => {
                    &&& (i == 0 || !cov@[i - 1])
                    &&& forall|x: int|
                        0 <= x < i && cov@[x] ==> exists|k: int|
                            0 <= k < r@.len() && #[trigger] r@[k].0 <= x < r@[k].1
                },
            },
        decreases n - i,
    {
        if cov[i] {
            if open.is_none() {
                proof {
                    if r@.len() > 0 {
                        let last = r@.len() - 1;
                        assert(r@[last].0 < r@[last].1 <= i);
                        assert(!cov@[r@[last].1 as int]);
                    }
                }
                open = Some(i);
            }
        } else {
            if let Some(s) = open {
                let ghost old_r = r@;
                r.push((s, i));
                proof {
                    assert forall|x: int| 0 <= x <= i && cov@[x] implies exists|k: int|
                        0 <= k < r@.len() && #[trigger] r@[k].0 <= x < r@[k].1 by {
                        if x >= s {
                            assert(r@[r@.len() - 1].0 <= x < r@[r@.len() - 1].1);
                        } else {
                            let k = choose|k: int| 0 <= k < old_r.len() && #[trigger] old_r[k].0 <= x < old_r[k].1;
                            assert(r@[k] == old_r[k]);
                        }
                    }
                }
                open = None;
            }
        }
        i = i + 1;
    }
    if let Some(s) = open {
        let ghost old_r = r@;
        r.push((s, n));
        proof {
            assert forall|x: int| 0 <= x < n && cov@[x] implies exists|k: int|
                0 <= k < r@.len() && #[trigger] r@[k].0 <= x < r@[k].1 by {
                if x >= s {
                    assert(r@[r@.len() - 1].0 <= x < r@[r@.len() - 1].1);
                } else {
                    let k = choose|k: int| 0 <= k < old_r.len() && #[trigger] old_r[k].0 <= x < old_r[k].1;
                    assert(r@[k] == old_r[k]);
                }
            }
        }
    }
    r
}

} // verus!
